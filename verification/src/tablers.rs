//! From entries to the table of percentage points per row and day.

pub mod bucket;
pub mod capacity;
pub mod conservation;
pub mod determinism;
pub mod month_proportional;
pub mod partition;
pub mod placement;
pub mod quota;

use crate::interning::{distinct, lemma_distinct};
use crate::numbers::picked;
use crate::ordering::{
    comes_before, key_values, lemma_stable_order, positions, sort_indices, stable_order,
};
use vstd::prelude::*;
use vstd::string::*;

verus! {

/// One cell of a table.
pub struct Cell {
    pub row: String,
    pub day: i64,
    pub value: u8,
}

/// A cell over sequences and integers.
pub struct CellView {
    pub row: Seq<char>,
    pub day: int,
    pub value: int,
}

impl View for Cell {
    type V = CellView;

    open spec fn view(&self) -> CellView {
        CellView { row: self.row@, day: self.day as int, value: self.value as int }
    }
}

/// A sparse matrix of percentage points, by row key and day. Its view is the
/// sequence of its cells in the order in which they were first written.
pub struct Table {
    cells: Vec<Cell>,
}

impl View for Table {
    type V = Seq<CellView>;

    closed spec fn view(&self) -> Seq<CellView> {
        self.cells@.map_values(|c: Cell| c@)
    }
}

/// The index of the cell of `row` and `day`, or -1 where there is none.
pub open spec fn cell_index(cells: Seq<CellView>, row: Seq<char>, day: int) -> int
    decreases cells.len(),
{
    if cells.len() == 0 {
        -1
    } else if cells.last().row == row && cells.last().day == day {
        cells.len() - 1
    } else {
        cell_index(cells.drop_last(), row, day)
    }
}

/// The value of the cell of `row` and `day`: 0 where there is none.
pub open spec fn value_at(cells: Seq<CellView>, row: Seq<char>, day: int) -> int {
    if cell_index(cells, row, day) >= 0 {
        cells[cell_index(cells, row, day)].value
    } else {
        0
    }
}

/// The cells after `value` was written at `row` and `day`: in place where the
/// cell exists, else behind all others.
pub open spec fn put(cells: Seq<CellView>, row: Seq<char>, day: int, value: int) -> Seq<CellView> {
    if cell_index(cells, row, day) >= 0 {
        cells.update(cell_index(cells, row, day), CellView { row, day, value })
    } else {
        cells.push(CellView { row, day, value })
    }
}

/// The sum of the cells of `day` over all rows.
pub open spec fn col_sum(cells: Seq<CellView>, day: int) -> int
    decreases cells.len(),
{
    if cells.len() == 0 {
        0
    } else {
        col_sum(cells.drop_last(), day) + if cells.last().day == day {
            cells.last().value
        } else {
            0
        }
    }
}

/// No two cells have the same row and day.
pub open spec fn distinct_cells(cells: Seq<CellView>) -> bool {
    forall|a: int, b: int|
        0 <= a < b < cells.len() ==> !((#[trigger] cells[a]).row == (#[trigger] cells[b]).row
            && cells[a].day == cells[b].day)
}

/// The row of each cell.
pub open spec fn cell_rows(cells: Seq<CellView>) -> Seq<Seq<char>> {
    Seq::new(cells.len(), |i: int| cells[i].row)
}

/// The day of each cell.
pub open spec fn cell_days(cells: Seq<CellView>) -> Seq<int> {
    Seq::new(cells.len(), |i: int| cells[i].day)
}

/// The days of the cells, each once, ascending.
pub open spec fn ascending_days(cells: Seq<CellView>) -> Seq<int> {
    picked(distinct(cell_days(cells)), stable_order(distinct(cell_days(cells))))
}

/// The views of the strings of a vector.
pub open spec fn texts(names: Seq<String>) -> Seq<Seq<char>> {
    names.map_values(|s: String| s@)
}

/// `cell_index` is -1 or the index of a cell of that row and day, the last of
/// them.
pub proof fn lemma_cell_index(cells: Seq<CellView>, row: Seq<char>, day: int)
    ensures
        -1 <= cell_index(cells, row, day) < cells.len(),
        cell_index(cells, row, day) >= 0 ==> cells[cell_index(cells, row, day)].row == row
            && cells[cell_index(cells, row, day)].day == day,
        forall|k: int|
            cell_index(cells, row, day) < k < cells.len() ==> !((#[trigger] cells[k]).row == row
                && cells[k].day == day),
    decreases cells.len(),
{
    if cells.len() > 0 {
        lemma_cell_index(cells.drop_last(), row, day);
        if !(cells.last().row == row && cells.last().day == day) {
            assert forall|k: int| cell_index(cells, row, day) < k < cells.len() implies !((
            #[trigger] cells[k]).row == row && cells[k].day == day) by {
                if k < cells.len() - 1 {
                    assert(cells.drop_last()[k] == cells[k]);
                }
            }
        }
    }
}

/// Changing the value of one cell changes the sum of its day by as much.
pub proof fn lemma_col_sum_update(cells: Seq<CellView>, at: int, value: int, day: int)
    requires
        0 <= at < cells.len(),
    ensures
        col_sum(
            cells.update(at, CellView { row: cells[at].row, day: cells[at].day, value }),
            day,
        ) == col_sum(cells, day) + if cells[at].day == day {
            value - cells[at].value
        } else {
            0
        },
    decreases cells.len(),
{
    let after = cells.update(at, CellView { row: cells[at].row, day: cells[at].day, value });
    if at == cells.len() - 1 {
        assert(after.drop_last() =~= cells.drop_last());
    } else {
        lemma_col_sum_update(cells.drop_last(), at, value, day);
        assert(after.drop_last() =~= cells.drop_last().update(
            at,
            CellView { row: cells[at].row, day: cells[at].day, value },
        ));
    }
}

/// Writing a cell changes the sum of its day by the difference to what the
/// cell held, and no other day.
pub proof fn lemma_col_sum_put(
    cells: Seq<CellView>,
    row: Seq<char>,
    day: int,
    value: int,
    other: int,
)
    ensures
        col_sum(put(cells, row, day, value), other) == col_sum(cells, other) + if other == day {
            value - value_at(cells, row, day)
        } else {
            0
        },
{
    lemma_cell_index(cells, row, day);
    let at = cell_index(cells, row, day);
    if at >= 0 {
        lemma_col_sum_update(cells, at, value, other);
    } else {
        assert(put(cells, row, day, value).drop_last() =~= cells);
    }
}

/// Writing a cell keeps the cells distinct.
pub proof fn lemma_put_distinct(cells: Seq<CellView>, row: Seq<char>, day: int, value: int)
    requires
        distinct_cells(cells),
    ensures
        distinct_cells(put(cells, row, day, value)),
{
    lemma_cell_index(cells, row, day);
    let at = cell_index(cells, row, day);
    let after = put(cells, row, day, value);
    assert forall|a: int, b: int| 0 <= a < b < after.len() implies !((#[trigger] after[a]).row == (
    #[trigger] after[b]).row && after[a].day == after[b].day) by {
        if at >= 0 {
            assert(!(cells[a].row == cells[b].row && cells[a].day == cells[b].day));
        } else if b < cells.len() {
            assert(!(cells[a].row == cells[b].row && cells[a].day == cells[b].day));
        } else {
            assert(!(cells[a].row == row && cells[a].day == day));
        }
    }
}

/// With values that are not negative, a cell holds no more than the sum of its
/// day.
pub proof fn lemma_value_within_col_sum(cells: Seq<CellView>, row: Seq<char>, day: int)
    requires
        forall|k: int| 0 <= k < cells.len() ==> 0 <= (#[trigger] cells[k]).value,
    ensures
        0 <= value_at(cells, row, day) <= col_sum(cells, day),
    decreases cells.len(),
{
    if cells.len() > 0 {
        let front = cells.drop_last();
        assert forall|k: int| 0 <= k < front.len() implies 0 <= (#[trigger] front[k]).value by {
            assert(0 <= cells[k].value);
        }
        lemma_value_within_col_sum(front, row, day);
        lemma_cell_index(front, row, day);
        lemma_col_sum_not_negative(front, day);
        assert(0 <= cells[cells.len() - 1].value);
    }
}

/// With values that are not negative, no day sums to less than nothing.
pub proof fn lemma_col_sum_not_negative(cells: Seq<CellView>, day: int)
    requires
        forall|k: int| 0 <= k < cells.len() ==> 0 <= (#[trigger] cells[k]).value,
    ensures
        0 <= col_sum(cells, day),
    decreases cells.len(),
{
    if cells.len() > 0 {
        let front = cells.drop_last();
        assert forall|k: int| 0 <= k < front.len() implies 0 <= (#[trigger] front[k]).value by {
            assert(0 <= cells[k].value);
        }
        lemma_col_sum_not_negative(front, day);
        assert(0 <= cells[cells.len() - 1].value);
    }
}

impl Table {
    /// No two cells of the table have the same row and day.
    pub open spec fn wf(&self) -> bool {
        distinct_cells(self@)
    }

    /// An empty table.
    pub fn new() -> (table: Table)
        ensures
            table@ == Seq::<CellView>::empty(),
            table.wf(),
    {
        let table = Table { cells: Vec::new() };
        assert(table@ =~= Seq::<CellView>::empty());
        table
    }

    /// Every cell holds a value that is not negative.
    pub proof fn lemma_values_not_negative(&self)
        ensures
            forall|k: int| 0 <= k < self@.len() ==> 0 <= (#[trigger] self@[k]).value <= u8::MAX,
    {
    }

    /// The number of cells.
    pub fn len(&self) -> (n: usize)
        ensures
            n == self@.len(),
    {
        self.cells.len()
    }

    /// Where the cell of `row` and `day` is, if there is one.
    fn find(&self, row: &String, day: i64) -> (at: Option<usize>)
        ensures
            match at {
                Some(at) => at as int == cell_index(self@, row@, day as int),
                None => cell_index(self@, row@, day as int) == -1,
            },
            at is Some ==> at->0 < self.cells@.len(),
    {
        let mut j: usize = self.cells.len();
        proof {
            assert(self@.take(j as int) =~= self@);
        }
        while j > 0
            invariant
                0 <= j <= self.cells@.len(),
                cell_index(self@, row@, day as int) == cell_index(
                    self@.take(j as int),
                    row@,
                    day as int,
                ),
            decreases j,
        {
            proof {
                assert(self@.take(j as int).drop_last() =~= self@.take(j - 1));
                assert(self@.take(j as int).last() == self.cells@[j - 1]@);
            }
            if self.cells[j - 1].day == day && self.cells[j - 1].row == *row {
                return Some(j - 1);
            }
            j -= 1;
        }
        None
    }

    /// The value at `row` and `day`: 0 where nothing was written.
    pub fn get(&self, row: &str, day: i64) -> (value: u8)
        ensures
            value == value_at(self@, row@, day as int),
    {
        let key = String::from_str(row);
        match self.find(&key, day) {
            Some(at) => self.cells[at].value,
            None => 0,
        }
    }

    /// Writes `value` at `row` and `day` and gives back what the cell held
    /// before. A caller that adds to a cell reads it first.
    pub fn insert(&mut self, row: String, day: i64, value: u8) -> (held: Option<u8>)
        ensures
            final(self)@ == put(old(self)@, row@, day as int, value as int),
            match held {
                Some(held) => cell_index(old(self)@, row@, day as int) >= 0 && held == value_at(
                    old(self)@,
                    row@,
                    day as int,
                ),
                None => cell_index(old(self)@, row@, day as int) == -1,
            },
            old(self).wf() ==> final(self).wf(),
    {
        let ghost before = self@;
        proof {
            if distinct_cells(before) {
                lemma_put_distinct(before, row@, day as int, value as int);
            }
        }
        match self.find(&row, day) {
            Some(at) => {
                let held = self.cells[at].value;
                self.cells.set(at, Cell { row, day, value });
                assert(self@ =~= put(before, row@, day as int, value as int));
                Some(held)
            },
            None => {
                self.cells.push(Cell { row, day, value });
                assert(self@ =~= put(before, row@, day as int, value as int));
                None
            },
        }
    }

    /// The row keys of the table, each once, in the order in which they were
    /// first written.
    pub fn row_headers(&self) -> (rows: Vec<String>)
        ensures
            texts(rows@) == distinct(cell_rows(self@)),
    {
        let n = self.cells.len();
        let ghost all = cell_rows(self@);
        let mut rows: Vec<String> = Vec::new();
        let mut i: usize = 0;
        proof {
            assert(texts(rows@) =~= distinct(all.take(0)));
        }
        while i < n
            invariant
                n == self.cells@.len(),
                all == cell_rows(self@),
                0 <= i <= n,
                texts(rows@) == distinct(all.take(i as int)),
            decreases n - i,
        {
            let ghost before = texts(rows@);
            let mut j: usize = 0;
            let mut found = false;
            while j < rows.len() && !found
                invariant
                    0 <= j <= rows@.len(),
                    i < n,
                    n == self.cells@.len(),
                    before == texts(rows@),
                    found ==> before.contains(self.cells@[i as int].row@),
                    !found ==> forall|k: int| 0 <= k < j ==> before[k] != self.cells@[i as int].row@,
                decreases rows@.len() - j + if found { 0int } else { 1int },
            {
                if rows[j] == self.cells[i].row {
                    found = true;
                    proof {
                        assert(before[j as int] == self.cells@[i as int].row@);
                    }
                } else {
                    j += 1;
                }
            }
            proof {
                assert(all.take(i as int + 1).drop_last() =~= all.take(i as int));
                assert(all.take(i as int + 1).last() == self.cells@[i as int].row@);
            }
            if !found {
                let name = self.cells[i].row.clone();
                rows.push(name);
                proof {
                    assert(texts(rows@) =~= before.push(self.cells@[i as int].row@));
                }
            }
            i += 1;
        }
        proof {
            assert(all.take(n as int) =~= all);
        }
        rows
    }

    /// The days of the table, each once, ascending.
    pub fn col_headers(&self) -> (days: Vec<i64>)
        ensures
            days@.map_values(|d: i64| d as int) == ascending_days(self@),
            forall|a: int, b: int| 0 <= a < b < days@.len() ==> days@[a] < days@[b],
    {
        let n = self.cells.len();
        let ghost all = cell_days(self@);
        let mut found: Vec<i128> = Vec::new();
        let mut i: usize = 0;
        proof {
            assert(key_values(found@) =~= distinct(all.take(0)));
        }
        while i < n
            invariant
                n == self.cells@.len(),
                all == cell_days(self@),
                0 <= i <= n,
                key_values(found@) == distinct(all.take(i as int)),
                forall|k: int| 0 <= k < found@.len() ==> i64::MIN <= #[trigger] found@[k] <= i64::MAX,
            decreases n - i,
        {
            let ghost before = key_values(found@);
            let day = self.cells[i].day;
            let mut j: usize = 0;
            let mut seen = false;
            while j < found.len() && !seen
                invariant
                    0 <= j <= found@.len(),
                    before == key_values(found@),
                    seen ==> before.contains(day as int),
                    !seen ==> forall|k: int| 0 <= k < j ==> before[k] != day as int,
                decreases found@.len() - j + if seen { 0int } else { 1int },
            {
                if found[j] == day as i128 {
                    seen = true;
                    proof {
                        assert(before[j as int] == day as int);
                    }
                } else {
                    j += 1;
                }
            }
            proof {
                assert(all.take(i as int + 1).drop_last() =~= all.take(i as int));
                assert(all.take(i as int + 1).last() == day as int);
            }
            if !seen {
                found.push(day as i128);
                proof {
                    assert(key_values(found@) =~= before.push(day as int));
                }
            }
            i += 1;
        }
        let order = sort_indices(&found);
        let count = order.len();
        let ghost keys = key_values(found@);
        let mut days: Vec<i64> = Vec::new();
        let mut k: usize = 0;
        proof {
            assert(all.take(n as int) =~= all);
            lemma_stable_order(keys);
            lemma_distinct(all);
        }
        while k < count
            invariant
                count == order@.len(),
                count == found@.len(),
                keys == key_values(found@),
                0 <= k <= count,
                days@.len() == k,
                forall|t: int| 0 <= t < order@.len() ==> #[trigger] order@[t] < found@.len(),
                forall|t: int| 0 <= t < found@.len() ==> i64::MIN <= #[trigger] found@[t] <= i64::MAX,
                forall|t: int| 0 <= t < k ==> #[trigger] days@[t] == found@[order@[t] as int],
            decreases count - k,
        {
            days.push(found[order[k]] as i64);
            k += 1;
        }
        proof {
            let sorted = days@.map_values(|d: i64| d as int);
            let turns = positions(order@);
            assert forall|t: int| 0 <= t < count implies sorted[t] == keys[turns[t]] by {
                assert(days@[t] == found@[order@[t] as int]);
            }
            assert(sorted =~= picked(keys, stable_order(keys)));
            assert forall|a: int, b: int| 0 <= a < b < days@.len() implies days@[a] < days@[b] by {
                assert(comes_before(keys, turns[a], turns[b]));
                assert(turns[a] != turns[b]);
                assert(keys[turns[a]] != keys[turns[b]]);
                assert(sorted[a] == keys[turns[a]] && sorted[b] == keys[turns[b]]);
            }
        }
        days
    }

    /// The sum of the cells of `day` over all rows.
    pub fn column_total(&self, day: i64) -> (sum: u128)
        ensures
            sum == col_sum(self@, day as int),
    {
        let n = self.cells.len();
        let mut sum: u128 = 0;
        let mut i: usize = 0;
        while i < n
            invariant
                n == self.cells@.len(),
                0 <= i <= n,
                sum == col_sum(self@.take(i as int), day as int),
                sum <= i * 255,
            decreases n - i,
        {
            proof {
                assert(self@.take(i as int + 1).drop_last() =~= self@.take(i as int));
                assert(self@.take(i as int + 1).last() == self.cells@[i as int]@);
            }
            if self.cells[i].day == day {
                sum = sum + self.cells[i].value as u128;
            }
            i += 1;
        }
        proof {
            assert(self@.take(n as int) =~= self@);
        }
        sum
    }
}

impl Default for Table {
    /// An empty table.
    fn default() -> (table: Table)
        ensures
            table@ == Seq::<CellView>::empty(),
            table.wf(),
    {
        Table::new()
    }
}

} // verus!
