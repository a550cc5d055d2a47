//! A count-min sketch of any number of rows.

use vstd::prelude::*;
use std::hash::Hash;
use super::cells::{bump, bumped, has_headroom, headroom, lemma_bumped, zeroed};
use super::hashing::xxhash_seeded;

verus! {

/// Why a sketch could not be made.
#[derive(Clone, Copy, Debug, PartialEq, Eq, Structural)]
pub enum CountMinError {
    /// The dimensions asked for describe no table.
    WrongInput,
}

/// The counters after the rows below `rows` each counted `frequency` in the
/// column that `columns` gives for the row.
pub open spec fn counted_rows(
    counters: Seq<u64>,
    width: int,
    columns: Seq<int>,
    rows: nat,
    frequency: u64,
) -> Seq<u64>
    decreases rows,
{
    if rows == 0 {
        counters
    } else {
        bumped(
            counted_rows(counters, width, columns, (rows - 1) as nat, frequency),
            columns[rows - 1] + (rows - 1) * width,
            frequency,
        )
    }
}

/// The least counter among those that `columns` gives for the rows below
/// `rows`; the largest count where there is no row.
pub open spec fn least_of_rows(counters: Seq<u64>, width: int, columns: Seq<int>, rows: nat) -> u64
    decreases rows,
{
    if rows == 0 {
        u64::MAX
    } else {
        let before = least_of_rows(counters, width, columns, (rows - 1) as nat);
        let count = counters[columns[rows - 1] + (rows - 1) * width];
        if count < before {
            count
        } else {
            before
        }
    }
}

/// How much an update counts: `frequency`, or one where none is given.
pub open spec fn amount(frequency: Option<u64>) -> u64 {
    match frequency {
        Some(by) => by,
        None => 1,
    }
}

/// Whether `columns` names a column of the table for each row.
pub open spec fn columns_fit(columns: Seq<int>, width: int, depth: int) -> bool {
    &&& columns.len() == depth
    &&& forall|row: int| 0 <= row < depth ==> 0 <= #[trigger] columns[row] < width
}

/// The counter of a value in the row `row`.
pub open spec fn cell_of(columns: Seq<int>, width: int, row: int) -> int {
    columns[row] + row * width
}

/// The counters of different rows lie apart, each within the table.
pub proof fn lemma_cells_apart(columns: Seq<int>, width: int, depth: int, lower: int, upper: int)
    requires
        columns_fit(columns, width, depth),
        0 <= lower < upper < depth,
    ensures
        0 <= cell_of(columns, width, lower) < cell_of(columns, width, upper) < width * depth,
{
    assert(0 <= columns[lower] < width);
    assert(0 <= columns[upper] < width);
    assert((lower + 1) * width <= upper * width && (upper + 1) * width <= width * depth && 0
        <= lower * width && (lower + 1) * width == lower * width + width && (upper + 1) * width
        == upper * width + width) by (nonlinear_arith)
        requires
            0 <= lower < upper < depth,
            width >= 1,
    ;
}

/// The counter of a row lies within the table.
pub proof fn lemma_cell_in_table(columns: Seq<int>, width: int, depth: int, row: int)
    requires
        columns_fit(columns, width, depth),
        0 <= row < depth,
    ensures
        0 <= cell_of(columns, width, row) < width * depth,
{
    assert(0 <= columns[row] < width);
    assert((row + 1) * width <= width * depth && 0 <= row * width && (row + 1) * width == row
        * width + width) by (nonlinear_arith)
        requires
            0 <= row < depth,
            width >= 1,
    ;
}

/// After the rows below `rows` counted, the counter of each of them has grown
/// by the frequency and every other counter is what it was.
pub proof fn lemma_counted_rows(
    counters: Seq<u64>,
    width: int,
    depth: int,
    columns: Seq<int>,
    rows: nat,
    frequency: u64,
    other: int,
)
    requires
        columns_fit(columns, width, depth),
        counters.len() == width * depth,
        headroom(counters, frequency as int),
        rows <= depth,
        0 <= other < counters.len(),
    ensures
        counted_rows(counters, width, columns, rows, frequency).len() == counters.len(),
        counted_rows(counters, width, columns, rows, frequency)[other] == if exists|row: int|
            0 <= row < rows && other == #[trigger] cell_of(columns, width, row) {
            counters[other] + frequency
        } else {
            counters[other] as int
        },
    decreases rows,
{
    if rows > 0 {
        let last = rows - 1;
        let cell = cell_of(columns, width, last);
        let before = counted_rows(counters, width, columns, last as nat, frequency);
        lemma_cell_in_table(columns, width, depth, last);
        lemma_counted_rows(counters, width, depth, columns, last as nat, frequency, other);
        lemma_counted_rows(counters, width, depth, columns, last as nat, frequency, cell);
        assert forall|row: int| 0 <= row < last implies cell != #[trigger] cell_of(
            columns,
            width,
            row,
        ) by {
            lemma_cells_apart(columns, width, depth, row, last);
        }
        lemma_bumped(before, cell, frequency, other);
        if other == cell {
            assert(other == cell_of(columns, width, last));
        }
        if exists|row: int| 0 <= row < rows && other == #[trigger] cell_of(columns, width, row) {
            let row = choose|row: int|
                0 <= row < rows && other == #[trigger] cell_of(columns, width, row);
            if row < last {
                assert(other == cell_of(columns, width, row));
            }
        }
    }
}

/// The estimate is never too low: an update raises the estimate of its value
/// by the frequency that it counted.
pub proof fn law_update_raises_the_estimate(
    counters: Seq<u64>,
    width: int,
    depth: int,
    columns: Seq<int>,
    frequency: u64,
    rows: nat,
)
    requires
        columns_fit(columns, width, depth),
        counters.len() == width * depth,
        headroom(counters, frequency as int),
        1 <= rows <= depth,
    ensures
        least_of_rows(
            counted_rows(counters, width, columns, depth as nat, frequency),
            width,
            columns,
            rows,
        ) >= least_of_rows(counters, width, columns, rows) + frequency,
    decreases rows,
{
    let last = rows - 1;
    lemma_cell_in_table(columns, width, depth, last);
    lemma_counted_rows(
        counters,
        width,
        depth,
        columns,
        depth as nat,
        frequency,
        cell_of(columns, width, last),
    );
    let after = counted_rows(counters, width, columns, depth as nat, frequency);
    let cell = cell_of(columns, width, last);
    assert(cell == cell_of(columns, width, last) && 0 <= last < depth);
    assert(after[cell] == counters[cell] + frequency);
    if rows > 1 {
        law_update_raises_the_estimate(
            counters,
            width,
            depth,
            columns,
            frequency,
            (rows - 1) as nat,
        );
    } else {
        assert(least_of_rows(after, width, columns, 0) == u64::MAX);
        assert(least_of_rows(counters, width, columns, 0) == u64::MAX);
    }
}

/// A count-min sketch of `depth` rows of `width` counters.
pub struct CountMinSketch {
    data: Vec<u64>,
    depth: usize,
    width: usize,
}

impl View for CountMinSketch {
    type V = Seq<u64>;

    closed spec fn view(&self) -> Seq<u64> {
        self.data@
    }
}

impl CountMinSketch {
    /// The number of rows.
    pub closed spec fn spec_depth(&self) -> usize {
        self.depth
    }

    /// The number of counters in a row.
    pub closed spec fn spec_width(&self) -> usize {
        self.width
    }

    /// The table holds `depth` rows of `width` counters.
    pub closed spec fn wf(&self) -> bool {
        &&& self.width >= 1
        &&& self.width * self.depth <= usize::MAX
        &&& self.data@.len() == self.width * self.depth
    }

    /// The counters are as many as the rows times the width.
    pub proof fn lemma_wf(&self)
        requires
            self.wf(),
        ensures
            self.spec_width() >= 1,
            self@.len() == self.spec_width() * self.spec_depth(),
    {
    }

    /// A sketch of `depth` rows of `width` counters, all zero. Fails where a
    /// row would hold no counter or the table would exceed the index range.
    pub fn with_dimensions(width: usize, depth: usize) -> (made: Result<
        CountMinSketch,
        CountMinError,
    >)
        ensures
            width >= 1 && width * depth <= usize::MAX ==> made is Ok && made.unwrap().wf()
                && made.unwrap().spec_width() == width && made.unwrap().spec_depth() == depth
                && made.unwrap()@ == Seq::new((width * depth) as nat, |i: int| 0u64),
            width == 0 || width * depth > usize::MAX ==> made == Err::<
                CountMinSketch,
                CountMinError,
            >(CountMinError::WrongInput),
    {
        if width == 0 {
            return Err(CountMinError::WrongInput);
        }
        if depth > usize::MAX / width {
            assert(width * depth > usize::MAX) by (nonlinear_arith)
                requires
                    depth > usize::MAX / width,
                    width >= 1,
            ;
            return Err(CountMinError::WrongInput);
        }
        assert(width * depth <= usize::MAX) by (nonlinear_arith)
            requires
                depth <= usize::MAX / width,
                width >= 1,
        ;
        Ok(CountMinSketch { data: zeroed(width * depth), depth, width })
    }

    /// The number of rows.
    pub fn depth(&self) -> (depth: usize)
        ensures
            depth == self.spec_depth(),
    {
        self.depth
    }

    /// The number of counters in a row.
    pub fn width(&self) -> (width: usize)
        ensures
            width == self.spec_width(),
    {
        self.width
    }

    /// Whether every counter can still grow by `by`.
    pub fn can_add(&self, by: u64) -> (roomy: bool)
        ensures
            roomy == headroom(self@, by as int),
    {
        has_headroom(&self.data, by)
    }

    /// Counts `frequency` occurrences, one is the default, of the value that
    /// the hash function sends to the column `columns[row]` in each row.
    pub fn update_cells(&mut self, columns: &Vec<usize>, frequency: Option<u64>)
        requires
            old(self).wf(),
            columns_fit(
                columns@.map_values(|c: usize| c as int),
                old(self).spec_width() as int,
                old(self).spec_depth() as int,
            ),
            headroom(old(self)@, amount(frequency) as int),
        ensures
            final(self).wf(),
            final(self).spec_width() == old(self).spec_width(),
            final(self).spec_depth() == old(self).spec_depth(),
            final(self)@ == counted_rows(
                old(self)@,
                old(self).spec_width() as int,
                columns@.map_values(|c: usize| c as int),
                old(self).spec_depth() as nat,
                amount(frequency),
            ),
    {
        let by = match frequency {
            Some(by) => by,
            None => 1,
        };
        let ghost places = columns@.map_values(|c: usize| c as int);
        let mut row: usize = 0;
        while row < self.depth
            invariant
                self.wf(),
                self.width == old(self).width,
                self.depth == old(self).depth,
                row <= self.depth,
                by == amount(frequency),
                places == columns@.map_values(|c: usize| c as int),
                columns_fit(places, self.width as int, self.depth as int),
                headroom(old(self)@, by as int),
                self.data@.len() == old(self).data@.len(),
                self@ == counted_rows(
                    old(self)@,
                    self.width as int,
                    places,
                    row as nat,
                    by,
                ),
                forall|i: int|
                    row * self.width <= i < self.data@.len() ==> #[trigger] self.data@[i] == old(
                        self,
                    ).data@[i],
            decreases self.depth - row,
        {
            let column = columns[row];
            assert(places[row as int] == column as int);
            assert(column + row * self.width < self.width * self.depth && (row + 1) * self.width
                <= self.width * self.depth && (row + 1) * self.width == row * self.width
                + self.width) by (nonlinear_arith)
                requires
                    column < self.width,
                    row < self.depth,
            ;
            let cell = column + row * self.width;
            bump(&mut self.data, cell, by);
            row = row + 1;
        }
    }

    /// The estimate for the value that the hash function sends to the column
    /// `columns[row]` in each row: the least of those counters.
    pub fn estimate_cells(&self, columns: &Vec<usize>) -> (count: u64)
        requires
            self.wf(),
            columns_fit(
                columns@.map_values(|c: usize| c as int),
                self.spec_width() as int,
                self.spec_depth() as int,
            ),
        ensures
            count == least_of_rows(
                self@,
                self.spec_width() as int,
                columns@.map_values(|c: usize| c as int),
                self.spec_depth() as nat,
            ),
    {
        let ghost places = columns@.map_values(|c: usize| c as int);
        let mut smallest = u64::MAX;
        let mut row: usize = 0;
        while row < self.depth
            invariant
                self.wf(),
                row <= self.depth,
                places == columns@.map_values(|c: usize| c as int),
                columns_fit(places, self.width as int, self.depth as int),
                smallest == least_of_rows(self@, self.width as int, places, row as nat),
            decreases self.depth - row,
        {
            let column = columns[row];
            assert(places[row as int] == column as int);
            assert(column + row * self.width < self.width * self.depth) by (nonlinear_arith)
                requires
                    column < self.width,
                    row < self.depth,
            ;
            let count = self.data[column + row * self.width];
            if count < smallest {
                smallest = count;
            }
            row = row + 1;
        }
        smallest
    }

    /// The column of `value` in each row, by XXH3 seeded with the row.
    pub fn columns_of<T: Hash>(&self, value: &T) -> (columns: Vec<usize>)
        requires
            self.wf(),
        ensures
            columns_fit(
                columns@.map_values(|c: usize| c as int),
                self.spec_width() as int,
                self.spec_depth() as int,
            ),
    {
        let mut columns: Vec<usize> = Vec::new();
        let mut row: usize = 0;
        while row < self.depth
            invariant
                self.wf(),
                row <= self.depth,
                columns@.len() == row,
                forall|k: int| 0 <= k < row ==> #[trigger] columns@[k] < self.width,
            decreases self.depth - row,
        {
            let column = xxhash_seeded(self.width as u64, value, row as u64);
            columns.push(column);
            row = row + 1;
        }
        columns
    }

    /// Counts `frequency` occurrences of `value`, one where none is given: in
    /// each row one counter grows by that much.
    pub fn update<T: Hash>(&mut self, value: T, frequency: Option<u64>)
        requires
            old(self).wf(),
            headroom(old(self)@, amount(frequency) as int),
        ensures
            final(self).wf(),
            final(self).spec_width() == old(self).spec_width(),
            final(self).spec_depth() == old(self).spec_depth(),
            exists|columns: Seq<int>|
                columns_fit(columns, old(self).spec_width() as int, old(self).spec_depth() as int)
                    && final(self)@ == #[trigger] counted_rows(
                    old(self)@,
                    old(self).spec_width() as int,
                    columns,
                    old(self).spec_depth() as nat,
                    amount(frequency),
                ),
    {
        let columns = self.columns_of(&value);
        self.update_cells(&columns, frequency);
        assert(self@ == counted_rows(
            old(self)@,
            old(self).spec_width() as int,
            columns@.map_values(|c: usize| c as int),
            old(self).spec_depth() as nat,
            amount(frequency),
        ));
    }

    /// The estimate of how often `value` was counted: the least of its
    /// counters, one in each row.
    pub fn estimate<T: Hash>(&self, value: T) -> (count: u64)
        requires
            self.wf(),
        ensures
            exists|columns: Seq<int>|
                columns_fit(columns, self.spec_width() as int, self.spec_depth() as int) && count
                    == #[trigger] least_of_rows(
                    self@,
                    self.spec_width() as int,
                    columns,
                    self.spec_depth() as nat,
                ),
    {
        let columns = self.columns_of(&value);
        let count = self.estimate_cells(&columns);
        assert(count == least_of_rows(
            self@,
            self.spec_width() as int,
            columns@.map_values(|c: usize| c as int),
            self.spec_depth() as nat,
        ));
        count
    }
}

} // verus!
