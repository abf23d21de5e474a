//! The items of one bucket and what the quota calculator reads off them: the
//! working items, their rows and days, and the sums per row.

use crate::interning::{distinct, intern};
use crate::ordering::key_values;
use vstd::prelude::*;

verus! {

/// The most items that one call takes: with more, the exact shares would not
/// fit in 128 bits.
pub const MAX_ITEMS: usize = 0xFFFF_FFFF;

/// The longest entry: from the first representable second to the last.
pub const MAX_SECONDS: u64 = 16_544_868_105_599;

/// What the engine reads of one entry.
#[derive(Clone, Copy, Debug)]
pub struct Item {
    /// The row of the entry, as an index into the list of row keys.
    pub row: usize,
    /// The day on which the entry starts.
    pub day: i64,
    /// Seconds from start to end.
    pub seconds: u64,
    /// The override, in thousandths of a day.
    pub absolute: Option<u32>,
    /// Whether the entry counts as work: false for time out of office.
    pub working: bool,
}

impl Item {
    /// The item lasts no longer than the longest valid entry.
    pub open spec fn valid(self) -> bool {
        self.seconds <= MAX_SECONDS
    }

    /// What the item claims whatever its duration, in thousandths of a day.
    pub open spec fn absolute_units(self) -> int {
        match self.absolute {
            Some(units) => units as int,
            None => 0,
        }
    }

    /// The seconds by which the item is weighed against the others: none
    /// where it has an override.
    pub open spec fn relative_seconds(self) -> int {
        match self.absolute {
            Some(_) => 0,
            None => self.seconds as int,
        }
    }
}

/// Whether every item is valid.
pub open spec fn all_valid(items: Seq<Item>) -> bool {
    forall|i: int| 0 <= i < items.len() ==> (#[trigger] items[i]).valid()
}

/// The items that count as work, in their order.
pub open spec fn working(items: Seq<Item>) -> Seq<Item>
    decreases items.len(),
{
    if items.len() == 0 {
        Seq::empty()
    } else if items.last().working {
        working(items.drop_last()).push(items.last())
    } else {
        working(items.drop_last())
    }
}

/// The row of each item.
pub open spec fn row_ids(w: Seq<Item>) -> Seq<int> {
    Seq::new(w.len(), |i: int| w[i].row as int)
}

/// The day of each item.
pub open spec fn day_ids(w: Seq<Item>) -> Seq<int> {
    Seq::new(w.len(), |i: int| w[i].day as int)
}

/// The rows of the items, each once, in the order of their first appearance.
pub open spec fn rows_of(w: Seq<Item>) -> Seq<int> {
    distinct(row_ids(w))
}

/// The days of the items, each once, in the order of their first appearance.
pub open spec fn days_of(w: Seq<Item>) -> Seq<int> {
    distinct(day_ids(w))
}

/// The sum of the overrides of the items of `row`.
pub open spec fn row_absolute(w: Seq<Item>, row: int) -> int
    decreases w.len(),
{
    if w.len() == 0 {
        0
    } else {
        row_absolute(w.drop_last(), row) + if w.last().row == row {
            w.last().absolute_units()
        } else {
            0
        }
    }
}

/// The sum of the relative seconds of the items of `row`.
pub open spec fn row_relative(w: Seq<Item>, row: int) -> int
    decreases w.len(),
{
    if w.len() == 0 {
        0
    } else {
        row_relative(w.drop_last(), row) + if w.last().row == row {
            w.last().relative_seconds()
        } else {
            0
        }
    }
}

/// The sum of all overrides.
pub open spec fn total_absolute(w: Seq<Item>) -> int
    decreases w.len(),
{
    if w.len() == 0 {
        0
    } else {
        total_absolute(w.drop_last()) + w.last().absolute_units()
    }
}

/// The sum of all relative seconds.
pub open spec fn total_relative(w: Seq<Item>) -> int
    decreases w.len(),
{
    if w.len() == 0 {
        0
    } else {
        total_relative(w.drop_last()) + w.last().relative_seconds()
    }
}

/// The working items are no more than the items, and valid where those are.
pub proof fn lemma_working(items: Seq<Item>)
    ensures
        working(items).len() <= items.len(),
        all_valid(items) ==> all_valid(working(items)),
        forall|i: int| 0 <= i < working(items).len() ==> (#[trigger] working(items)[i]).working,
    decreases items.len(),
{
    if items.len() > 0 {
        lemma_working(items.drop_last());
        if all_valid(items) {
            assert forall|i: int| 0 <= i < items.drop_last().len() implies (
            #[trigger] items.drop_last()[i]).valid() by {
                assert(items[i].valid());
            }
            assert(items.last() == items[items.len() - 1]);
        }
    }
}

/// Every working item is an item that counts as work, and every such item is
/// among the working items.
pub proof fn lemma_working_source(items: Seq<Item>)
    ensures
        forall|k: int|
            0 <= k < working(items).len() ==> exists|i: int|
                0 <= i < items.len() && items[i] == #[trigger] working(items)[k],
        forall|i: int|
            0 <= i < items.len() && (#[trigger] items[i]).working ==> working(items).contains(
                items[i],
            ),
    decreases items.len(),
{
    if items.len() > 0 {
        let front = items.drop_last();
        lemma_working_source(front);
        let w = working(items);
        let before = working(front);
        assert forall|k: int| 0 <= k < w.len() implies exists|i: int|
            0 <= i < items.len() && items[i] == #[trigger] w[k] by {
            if k < before.len() {
                assert(w[k] == before[k]);
                let i = choose|i: int| 0 <= i < front.len() && front[i] == before[k];
                assert(items[i] == w[k]);
            } else {
                assert(items[items.len() - 1] == w[k]);
            }
        }
        assert forall|i: int| 0 <= i < items.len() && (#[trigger] items[i]).working implies w.contains(
            items[i],
        ) by {
            if i < front.len() {
                assert(front[i] == items[i]);
                let k = choose|k: int| 0 <= k < before.len() && before[k] == front[i];
                assert(w[k] == items[i]);
            } else {
                assert(w[w.len() - 1] == items[i]);
            }
        }
    }
}

/// The working items of a bucket with their rows and days numbered, and the
/// sums that the shares are computed from.
pub struct Survey {
    /// The working items, in the bucket's order.
    pub items: Vec<Item>,
    /// The distinct rows, in the order of their first appearance.
    pub rows: Vec<i128>,
    /// The distinct days, in the order of their first appearance.
    pub days: Vec<i128>,
    /// For each item, the index of its row in `rows`.
    pub row_of: Vec<usize>,
    /// For each item, the index of its day in `days`.
    pub day_of: Vec<usize>,
    /// For each row, the sum of its overrides.
    pub absolute: Vec<u128>,
    /// For each row, the sum of its relative seconds.
    pub relative: Vec<u128>,
    /// The sum of all overrides.
    pub total_absolute: u128,
    /// The sum of all relative seconds.
    pub total_relative: u128,
}

impl Survey {
    /// The numbering and the sums are those of the survey's own items.
    pub open spec fn wf(&self) -> bool {
        let w = self.items@;
        &&& w.len() <= MAX_ITEMS
        &&& all_valid(w)
        &&& key_values(self.rows@) == rows_of(w)
        &&& key_values(self.days@) == days_of(w)
        &&& self.rows@.len() <= w.len()
        &&& self.days@.len() <= w.len()
        &&& key_values(self.rows@).no_duplicates()
        &&& key_values(self.days@).no_duplicates()
        &&& forall|j: int| 0 <= j < self.rows@.len() ==> 0 <= #[trigger] self.rows@[j] <= usize::MAX
        &&& forall|t: int|
            0 <= t < self.days@.len() ==> i64::MIN <= #[trigger] self.days@[t] <= i64::MAX
        &&& self.row_of@.len() == w.len()
        &&& self.day_of@.len() == w.len()
        &&& forall|i: int|
            0 <= i < w.len() ==> {
                &&& (#[trigger] self.row_of@[i]) < self.rows@.len()
                &&& self.rows@[self.row_of@[i] as int] == w[i].row
                &&& self.row_of@[i] == rows_of(w).index_of(w[i].row as int)
            }
        &&& forall|i: int|
            0 <= i < w.len() ==> {
                &&& (#[trigger] self.day_of@[i]) < self.days@.len()
                &&& self.days@[self.day_of@[i] as int] == w[i].day
                &&& self.day_of@[i] == days_of(w).index_of(w[i].day as int)
            }
        &&& self.absolute@.len() == self.rows@.len()
        &&& self.relative@.len() == self.rows@.len()
        &&& forall|j: int|
            0 <= j < self.rows@.len() ==> {
                &&& (#[trigger] self.absolute@[j]) == row_absolute(w, self.rows@[j] as int)
                &&& self.absolute@[j] <= w.len() * u32::MAX
            }
        &&& forall|j: int|
            0 <= j < self.rows@.len() ==> {
                &&& (#[trigger] self.relative@[j]) == row_relative(w, self.rows@[j] as int)
                &&& self.relative@[j] <= w.len() * MAX_SECONDS
            }
        &&& self.total_absolute == total_absolute(w)
        &&& self.total_relative == total_relative(w)
        &&& self.total_absolute <= w.len() * u32::MAX
        &&& self.total_relative <= w.len() * MAX_SECONDS
    }
}

/// Keeps the items that count as work.
pub fn working_items(items: &Vec<Item>) -> (w: Vec<Item>)
    ensures
        w@ == working(items@),
        w@.len() <= items@.len(),
{
    let mut w: Vec<Item> = Vec::new();
    let mut i: usize = 0;
    while i < items.len()
        invariant
            0 <= i <= items@.len(),
            w@ == working(items@.take(i as int)),
            w@.len() <= i,
        decreases items@.len() - i,
    {
        proof {
            assert(items@.take(i as int + 1).drop_last() =~= items@.take(i as int));
        }
        if items[i].working {
            w.push(items[i]);
        }
        i += 1;
    }
    proof {
        assert(items@.take(items@.len() as int) =~= items@);
    }
    w
}

/// Numbers the rows and days of the working items of a bucket and sums up
/// what each row claims.
pub fn survey(items: &Vec<Item>) -> (s: Survey)
    requires
        items@.len() <= MAX_ITEMS,
        all_valid(items@),
    ensures
        s.wf(),
        s.items@ == working(items@),
{
    let w = working_items(items);
    proof {
        lemma_working(items@);
    }
    let n = w.len();
    let mut row_keys: Vec<i128> = Vec::new();
    let mut day_keys: Vec<i128> = Vec::new();
    let mut i: usize = 0;
    while i < n
        invariant
            n == w@.len(),
            0 <= i <= n,
            row_keys@.len() == i,
            day_keys@.len() == i,
            forall|k: int| 0 <= k < i ==> #[trigger] row_keys@[k] == w@[k].row,
            forall|k: int| 0 <= k < i ==> #[trigger] day_keys@[k] == w@[k].day,
        decreases n - i,
    {
        row_keys.push(w[i].row as i128);
        day_keys.push(w[i].day as i128);
        i += 1;
    }
    proof {
        assert(key_values(row_keys@) =~= row_ids(w@));
        assert(key_values(day_keys@) =~= day_ids(w@));
    }
    let (rows, row_of) = intern(&row_keys);
    let (days, day_of) = intern(&day_keys);
    let count = rows.len();
    let mut absolute: Vec<u128> = Vec::new();
    let mut relative: Vec<u128> = Vec::new();
    let mut j: usize = 0;
    while j < count
        invariant
            0 <= j <= count,
            absolute@.len() == j,
            relative@.len() == j,
            forall|k: int| 0 <= k < j ==> #[trigger] absolute@[k] == 0,
            forall|k: int| 0 <= k < j ==> #[trigger] relative@[k] == 0,
        decreases count - j,
    {
        absolute.push(0);
        relative.push(0);
        j += 1;
    }
    let mut all_absolute: u128 = 0;
    let mut all_relative: u128 = 0;
    let mut i: usize = 0;
    while i < n
        invariant
            n == w@.len(),
            n <= MAX_ITEMS,
            all_valid(w@),
            count == rows@.len(),
            0 <= i <= n,
            key_values(rows@).no_duplicates(),
            row_of@.len() == n,
            forall|k: int|
                0 <= k < n ==> (#[trigger] row_of@[k]) < rows@.len() && rows@[row_of@[k] as int]
                    == row_keys@[k],
            forall|k: int| 0 <= k < n ==> #[trigger] row_keys@[k] == w@[k].row,
            absolute@.len() == count,
            relative@.len() == count,
            forall|k: int|
                0 <= k < count ==> (#[trigger] absolute@[k]) == row_absolute(
                    w@.take(i as int),
                    rows@[k] as int,
                ) && absolute@[k] <= i * u32::MAX,
            forall|k: int|
                0 <= k < count ==> (#[trigger] relative@[k]) == row_relative(
                    w@.take(i as int),
                    rows@[k] as int,
                ) && relative@[k] <= i * MAX_SECONDS,
            all_absolute == total_absolute(w@.take(i as int)),
            all_relative == total_relative(w@.take(i as int)),
            all_absolute <= i * u32::MAX,
            all_relative <= i * MAX_SECONDS,
        decreases n - i,
    {
        let item = w[i];
        let slot = row_of[i];
        let (units, seconds): (u128, u128) = match item.absolute {
            Some(units) => (units as u128, 0),
            None => (0, item.seconds as u128),
        };
        proof {
            assert(w@[i as int].valid());
            assert(units == item.absolute_units() && seconds == item.relative_seconds());
            assert(w@.take(i as int + 1).drop_last() =~= w@.take(i as int));
            assert(w@.take(i as int + 1).last() == item);
            assert((i + 1) * u32::MAX == i * u32::MAX + u32::MAX) by (nonlinear_arith);
            assert((i + 1) * MAX_SECONDS == i * MAX_SECONDS + MAX_SECONDS) by (nonlinear_arith);
            assert(i * u32::MAX <= MAX_ITEMS * u32::MAX) by (nonlinear_arith)
                requires
                    i <= MAX_ITEMS,
            ;
            assert(i * MAX_SECONDS <= MAX_ITEMS * MAX_SECONDS) by (nonlinear_arith)
                requires
                    i <= MAX_ITEMS,
            ;
            assert forall|k: int| 0 <= k < count && k != slot implies rows@[k] as int
                != item.row as int by {
                assert(key_values(rows@)[k] != key_values(rows@)[slot as int]);
            }
        }
        let ghost before_absolute = absolute@;
        let ghost before_relative = relative@;
        let sum_absolute: u128 = absolute[slot] + units;
        let sum_relative: u128 = relative[slot] + seconds;
        absolute.set(slot, sum_absolute);
        relative.set(slot, sum_relative);
        all_absolute = all_absolute + units;
        all_relative = all_relative + seconds;
        i += 1;
        proof {
            assert forall|k: int| 0 <= k < count implies (#[trigger] absolute@[k]) == row_absolute(
                w@.take(i as int),
                rows@[k] as int,
            ) && absolute@[k] <= i * u32::MAX by {
                if k != slot {
                    assert(absolute@[k] == before_absolute[k]);
                }
            }
            assert forall|k: int| 0 <= k < count implies (#[trigger] relative@[k]) == row_relative(
                w@.take(i as int),
                rows@[k] as int,
            ) && relative@[k] <= i * MAX_SECONDS by {
                if k != slot {
                    assert(relative@[k] == before_relative[k]);
                }
            }
        }
    }
    proof {
        assert(w@.take(n as int) =~= w@);
        crate::interning::lemma_distinct(row_ids(w@));
        crate::interning::lemma_distinct(day_ids(w@));
        assert forall|j: int| 0 <= j < rows@.len() implies 0 <= #[trigger] rows@[j]
            <= usize::MAX by {
            assert(row_ids(w@).contains(key_values(rows@)[j]));
        }
        assert forall|t: int| 0 <= t < days@.len() implies i64::MIN <= #[trigger] days@[t]
            <= i64::MAX by {
            assert(day_ids(w@).contains(key_values(days@)[t]));
        }
    }
    Survey {
        items: w,
        rows,
        days,
        row_of,
        day_of,
        absolute,
        relative,
        total_absolute: all_absolute,
        total_relative: all_relative,
    }
}

} // verus!
