//! The proportional tabler: every bucket of entries is apportioned on its own
//! and its placements are written to one table, in percentage points.

use crate::entries::Entry;
use crate::interning::{distinct, lemma_distinct, lemma_index_of_unique};
use crate::ordering::positions;
use crate::tablers::bucket::{
    all_valid, day_ids, days_of, lemma_working_source, row_ids, rows_of, working, Item, MAX_ITEMS,
};
use crate::tablers::capacity::{
    lemma_no_day_over_capacity, lemma_placed_on_grows,
    lemma_placed_on_other_day, placed_on,
};
use crate::tablers::conservation::{
    demand_meets_budget, lemma_capacity_conservation, rounding_meets_budget,
};
use crate::tablers::partition::{
    cuts, days_ascend, lemma_cuts, lemma_runs_hold_days_apart, partition, run_start,
    sort_by_start_day, sorted_by_day,
};
use crate::tablers::placement::{allocate, placed, placements, Placed, Placement};
use crate::tablers::{
    col_sum, lemma_col_sum_put, lemma_value_within_col_sum, put, texts, value_at, CellView, Table,
};
use vstd::prelude::*;

verus! {

/// The percentage points of a full day.
pub const SLOTS_PER_DAY: u8 = 100;

/// The period within which entries are apportioned together.
#[derive(Debug, Clone, Copy)]
pub enum Period {
    Day,
    Week,
    Month,
    Year,
    All,
}

impl Default for Period {
    /// Entries are apportioned day by day.
    fn default() -> (period: Period)
        ensures
            period is Day,
    {
        Period::Day
    }
}

/// The proportional tabler and its configuration.
#[derive(Debug, Clone, Copy)]
pub struct MonthProportional {
    pub period: Period,
    /// The slots into which a workday is divided. It divides 100.
    pub granularity: u8,
}

impl Default for MonthProportional {
    /// Day by day, with a slot for each percentage point.
    fn default() -> (tabler: MonthProportional)
        ensures
            tabler.period is Day,
            tabler.granularity == 100,
            tabler.valid(),
    {
        assert(100int % 100 == 0);
        MonthProportional { period: Period::Day, granularity: SLOTS_PER_DAY }
    }
}

/// The row key of each entry.
pub open spec fn row_keys(entries: Seq<Entry>) -> Seq<Seq<char>> {
    Seq::new(entries.len(), |i: int| entries[i].row_key())
}

/// The row keys of the entries, each once, in the order of their first
/// appearance.
pub open spec fn row_names(entries: Seq<Entry>) -> Seq<Seq<char>> {
    distinct(row_keys(entries))
}

/// What the engine reads of `entry`, its row being numbered by `names`.
pub open spec fn item_of(names: Seq<Seq<char>>, entry: Entry) -> Item {
    Item {
        row: names.index_of(entry.row_key()) as usize,
        day: entry.start_day() as i64,
        seconds: entry.spec_duration() as u64,
        absolute: entry.absolute,
        working: !entry.out_of_office(),
    }
}

/// The items of the entries, in their order.
pub open spec fn items_of(entries: Seq<Entry>) -> Seq<Item> {
    Seq::new(entries.len(), |i: int| item_of(row_names(entries), entries[i]))
}

/// Whether every entry is valid.
pub open spec fn all_entries_valid(entries: Seq<Entry>) -> bool {
    forall|i: int| 0 <= i < entries.len() ==> (#[trigger] entries[i]).valid()
}

/// Whether an entry that counts as work starts on `day`.
pub open spec fn is_workday(entries: Seq<Entry>, day: int) -> bool {
    exists|i: int|
        0 <= i < entries.len() && !(#[trigger] entries[i]).out_of_office() && entries[i].start_day()
            == day
}

/// The cells after `points` were added at `row` and `day`.
pub open spec fn record(cells: Seq<CellView>, row: Seq<char>, day: int, points: int) -> Seq<
    CellView,
> {
    put(cells, row, day, value_at(cells, row, day) + points)
}

/// The cells after the placements of `log` were added, in their order, each
/// at the row that `names` gives it and `factor` points for a slot.
pub open spec fn posted(
    cells: Seq<CellView>,
    names: Seq<Seq<char>>,
    log: Seq<Placed>,
    factor: int,
) -> Seq<CellView>
    decreases log.len(),
{
    if log.len() == 0 {
        cells
    } else {
        record(
            posted(cells, names, log.drop_last(), factor),
            names[log.last().row],
            log.last().day,
            log.last().amount * factor,
        )
    }
}

/// Adding placements adds, on every day, `factor` points for each slot put
/// on it.
pub proof fn lemma_posted_col_sum(
    cells: Seq<CellView>,
    names: Seq<Seq<char>>,
    log: Seq<Placed>,
    factor: int,
    day: int,
)
    ensures
        col_sum(posted(cells, names, log, factor), day) == col_sum(cells, day) + factor * placed_on(
            log,
            day,
        ),
    decreases log.len(),
{
    if log.len() > 0 {
        lemma_posted_col_sum(cells, names, log.drop_last(), factor, day);
        let before = posted(cells, names, log.drop_last(), factor);
        let last = log.last();
        lemma_col_sum_put(
            before,
            names[last.row],
            last.day,
            value_at(before, names[last.row], last.day) + last.amount * factor,
            day,
        );
        assert(factor * (placed_on(log.drop_last(), day) + last.amount) == factor * placed_on(
            log.drop_last(),
            day,
        ) + last.amount * factor) by (nonlinear_arith);
    } else {
        assert(factor * 0 == 0);
    }
}

/// Numbers the rows of the entries and reads off each entry what the engine
/// needs.
pub fn itemize(entries: &[Entry]) -> (out: (Vec<String>, Vec<Item>))
    requires
        all_entries_valid(entries@),
    ensures
        texts(out.0@) == row_names(entries@),
        out.1@ == items_of(entries@),
        all_valid(out.1@),
        forall|i: int| 0 <= i < out.1@.len() ==> (#[trigger] out.1@[i]).row < out.0@.len(),
{
    let n = entries.len();
    let ghost keys = row_keys(entries@);
    let mut names: Vec<String> = Vec::new();
    let mut items: Vec<Item> = Vec::new();
    let mut i: usize = 0;
    proof {
        assert(texts(names@) =~= distinct(keys.take(0)));
    }
    while i < n
        invariant
            n == entries@.len(),
            keys == row_keys(entries@),
            all_entries_valid(entries@),
            0 <= i <= n,
            items@.len() == i,
            names@.len() <= i,
            texts(names@) == distinct(keys.take(i as int)),
            texts(names@).no_duplicates(),
            forall|k: int|
                0 <= k < i ==> {
                    &&& (#[trigger] items@[k]).row < names@.len()
                    &&& names@[items@[k].row as int]@ == entries@[k].row_key()
                    &&& items@[k].day == entries@[k].start_day()
                    &&& items@[k].seconds == entries@[k].spec_duration()
                    &&& items@[k].absolute == entries@[k].absolute
                    &&& items@[k].working == !entries@[k].out_of_office()
                    &&& items@[k].valid()
                },
        decreases n - i,
    {
        let entry = &entries[i];
        assert(entry.valid());
        let key = entry.to_project_task();
        let ghost before = texts(names@);
        let mut j: usize = names.len();
        let mut found = false;
        while j > 0 && !found
            invariant
                0 <= j <= names@.len(),
                before == texts(names@),
                found ==> j < names@.len() && names@[j as int]@ == key@,
                !found ==> forall|k: int| j <= k < names@.len() ==> names@[k]@ != key@,
            decreases j + if found { 0int } else { 1int },
        {
            j -= 1;
            if names[j] == key {
                found = true;
            }
        }
        proof {
            assert(keys.take(i as int + 1).drop_last() =~= keys.take(i as int));
            assert(keys.take(i as int + 1).last() == key@);
            if found {
                assert(before[j as int] == key@);
            } else {
                assert forall|k: int| 0 <= k < before.len() implies before[k] != key@ by {
                    assert(before[k] == names@[k]@);
                }
                assert(texts(names@.push(key)) =~= before.push(key@));
                assert forall|a: int, b: int|
                    0 <= a < before.len() + 1 && 0 <= b < before.len() + 1 && a != b implies before.push(
                    key@,
                )[a] != before.push(key@)[b] by {
                    if a < before.len() && b < before.len() {
                        assert(before[a] != before[b]);
                    }
                }
            }
        }
        let row = if found {
            j
        } else {
            names.push(key);
            names.len() - 1
        };
        let day = entry.get_start_day();
        let seconds = entry.duration();
        let away = entry.is_out_of_office();
        items.push(Item { row, day, seconds, absolute: entry.absolute, working: !away });
        i += 1;
    }
    proof {
        assert(keys.take(n as int) =~= keys);
        let list = texts(names@);
        assert forall|k: int| 0 <= k < n implies items@[k] == item_of(list, entries@[k]) by {
            let at = items@[k].row as int;
            assert(list[at] == entries@[k].row_key());
            lemma_index_of_unique(list, at);
        }
        assert(items@ =~= items_of(entries@));
    }
    (names, items)
}

/// Adds the placements of `log` to the table, `factor` points for a slot.
fn post(table: &mut Table, names: &Vec<String>, log: &Vec<Placement>, factor: u8)
    requires
        forall|k: int| 0 <= k < log@.len() ==> (#[trigger] log@[k]).row < names@.len(),
        forall|k: int|
            0 <= k < log@.len() ==> col_sum(old(table)@, (#[trigger] log@[k]).day as int) + factor
                * placed_on(placed(log@), log@[k].day as int) <= u8::MAX,
    ensures
        final(table)@ == posted(old(table)@, texts(names@), placed(log@), factor as int),
        old(table).wf() ==> final(table).wf(),
{
    let n = log.len();
    let ghost start = table@;
    let ghost list = texts(names@);
    let ghost all = placed(log@);
    let mut k: usize = 0;
    while k < n
        invariant
            n == log@.len(),
            list == texts(names@),
            all == placed(log@),
            0 <= k <= n,
            forall|t: int| 0 <= t < log@.len() ==> (#[trigger] log@[t]).row < names@.len(),
            forall|t: int|
                0 <= t < log@.len() ==> col_sum(start, (#[trigger] log@[t]).day as int) + factor
                    * placed_on(all, log@[t].day as int) <= u8::MAX,
            table@ == posted(start, list, all.take(k as int), factor as int),
            old(table).wf() ==> table.wf(),
        decreases n - k,
    {
        let p = log[k];
        let ghost day = p.day as int;
        let ghost row = list[p.row as int];
        let ghost before = table@;
        let held = table.get(names[p.row].as_str(), p.day);
        proof {
            assert(all.take(k as int + 1).drop_last() =~= all.take(k as int));
            assert(all.take(k as int + 1).last() == p@);
            assert(row == names@[p.row as int]@);
            table.lemma_values_not_negative();
            lemma_value_within_col_sum(before, row, day);
            lemma_posted_col_sum(start, list, all.take(k as int), factor as int, day);
            assert(forall|t: int| 0 <= t < all.len() ==> 0 <= (#[trigger] all[t]).amount);
            lemma_placed_on_grows(all, k as int + 1, day);
            assert(col_sum(start, log@[k as int].day as int) + factor * placed_on(all, day)
                <= u8::MAX);
            assert(factor * placed_on(all.take(k as int + 1), day) <= factor * placed_on(all, day))
                by (nonlinear_arith)
                requires
                    placed_on(all.take(k as int + 1), day) <= placed_on(all, day),
                    factor >= 0,
            ;
            assert(factor * (placed_on(all.take(k as int), day) + p.amount) == factor * placed_on(
                all.take(k as int),
                day,
            ) + p.amount * factor) by (nonlinear_arith);
            assert(0 <= p.amount * factor) by (nonlinear_arith)
                requires
                    p.amount >= 0,
                    factor >= 0,
            ;
            lemma_col_sum_not_negative_start(
                start,
                day,
                before,
                list,
                all.take(k as int),
                factor as int,
            );
        }
        let points: u8 = p.amount * factor;
        table.insert(names[p.row].clone(), p.day, held + points);
        k += 1;
    }
    proof {
        assert(all.take(n as int) =~= all);
    }
}

/// What stood on a day before is part of what stands on it after placements
/// that are not negative.
proof fn lemma_col_sum_not_negative_start(
    start: Seq<CellView>,
    day: int,
    now: Seq<CellView>,
    names: Seq<Seq<char>>,
    log: Seq<Placed>,
    factor: int,
)
    requires
        now == posted(start, names, log, factor),
        factor >= 0,
        forall|k: int| 0 <= k < log.len() ==> 0 <= (#[trigger] log[k]).amount,
    ensures
        col_sum(now, day) >= col_sum(start, day),
{
    lemma_posted_col_sum(start, names, log, factor, day);
    crate::tablers::capacity::lemma_placed_on_not_negative(log, day);
    assert(factor * placed_on(log, day) >= 0) by (nonlinear_arith)
        requires
            placed_on(log, day) >= 0,
            factor >= 0,
    ;
}

impl MonthProportional {
    /// The granularity divides the percentage points of a day.
    pub open spec fn valid(&self) -> bool {
        self.granularity > 0 && 100int % (self.granularity as int) == 0
    }

    /// Percentage points for one slot.
    pub open spec fn factor(&self) -> int {
        100int / (self.granularity as int)
    }

    /// The table after one bucket has been apportioned and placed on it.
    pub open spec fn slice_table(&self, cells: Seq<CellView>, entries: Seq<Entry>) -> Seq<
        CellView,
    > {
        posted(
            cells,
            row_names(entries),
            placements(items_of(entries), self.granularity as int),
            self.factor(),
        )
    }

    /// A granularity that divides 100 is no more than 100.
    pub proof fn lemma_granularity_bound(&self)
        requires
            self.valid(),
        ensures
            0 < self.granularity <= 100,
            self.factor() * self.granularity == 100,
            1 <= self.factor() <= 100,
    {
        let slots = self.granularity as int;
        if slots > 100 {
            vstd::arithmetic::div_mod::lemma_small_mod(100, slots as nat);
        }
        vstd::arithmetic::div_mod::lemma_fundamental_div_mod(100, slots);
        assert(1 <= 100int / slots <= 100) by (nonlinear_arith)
            requires
                0 < slots <= 100,
                100 == slots * (100int / slots),
        ;
        assert(slots * (100int / slots) == (100int / slots) * slots) by (nonlinear_arith);
    }

    /// Whether the bucket made of `entries` asks for all of its budget and the
    /// rounding gives all of it out: its demand is no less than its budget,
    /// and the whole slots of all shares with one slot for each positive
    /// remainder make up the budget.
    pub open spec fn fills_workdays(&self, entries: Seq<Entry>) -> bool {
        &&& demand_meets_budget(working(items_of(entries)), self.granularity as int)
        &&& rounding_meets_budget(working(items_of(entries)), self.granularity as int)
    }

    /// Whether the granularity divides the percentage points of a day.
    pub fn is_valid(&self) -> (ok: bool)
        ensures
            ok == self.valid(),
    {
        self.granularity > 0 && SLOTS_PER_DAY % self.granularity == 0
    }

    /// Apportions one bucket and adds its placements to the table. The entries
    /// are those of one period, in the order of their days; no cell of the
    /// table lies on one of their workdays yet.
    pub fn process_slice(&self, table: &mut Table, entries: &[Entry])
        requires
            self.valid(),
            entries@.len() <= MAX_ITEMS,
            all_entries_valid(entries@),
            forall|day: int| is_workday(entries@, day) ==> col_sum(old(table)@, day) == 0,
        ensures
            final(table)@ == self.slice_table(old(table)@, entries@),
            forall|day: int| is_workday(entries@, day) ==> col_sum(final(table)@, day) <= 100,
            forall|day: int|
                !is_workday(entries@, day) ==> col_sum(final(table)@, day) == col_sum(
                    old(table)@,
                    day,
                ),
            self.fills_workdays(entries@) ==> forall|day: int|
                is_workday(entries@, day) ==> col_sum(final(table)@, day) == 100,
            old(table).wf() ==> final(table).wf(),
    {
        proof {
            self.lemma_granularity_bound();
        }
        let (names, items) = itemize(entries);
        let log = allocate(&items, self.granularity);
        let factor: u8 = SLOTS_PER_DAY / self.granularity;
        let ghost slots = self.granularity as int;
        let ghost all = placed(log@);
        let ghost start = table@;
        proof {
            lemma_no_day_over_capacity(items@, slots);
            assert(factor * slots == 100);
            assert forall|k: int| 0 <= k < log@.len() implies is_workday(
                entries@,
                (#[trigger] log@[k]).day as int,
            ) && log@[k].row < names@.len() by {
                assert(all[k] == log@[k]@);
                lemma_placement(entries@, slots, k);
            }
            assert forall|day: int| factor * #[trigger] placed_on(all, day) <= 100 by {
                assert(factor * placed_on(all, day) <= factor * slots) by (nonlinear_arith)
                    requires
                        placed_on(all, day) <= slots,
                        factor >= 0,
                ;
            }
            assert forall|day: int| !is_workday(entries@, day) implies col_sum(
                posted(start, texts(names@), all, factor as int),
                day,
            ) == col_sum(start, day) by {
                lemma_posted_col_sum(start, texts(names@), all, factor as int, day);
                assert forall|k: int| 0 <= k < all.len() implies (#[trigger] all[k]).day != day by {
                    assert(all[k] == log@[k]@);
                }
                lemma_placed_on_other_day(all, day);
            }
            assert forall|day: int| is_workday(entries@, day) implies col_sum(
                posted(start, texts(names@), all, factor as int),
                day,
            ) <= 100 by {
                lemma_posted_col_sum(start, texts(names@), all, factor as int, day);
            }
            if self.fills_workdays(entries@) {
                lemma_capacity_conservation(items@, slots);
                assert forall|day: int| is_workday(entries@, day) implies col_sum(
                    posted(start, texts(names@), all, factor as int),
                    day,
                ) == 100 by {
                    lemma_posted_col_sum(start, texts(names@), all, factor as int, day);
                    lemma_workday_is_bucket_day(entries@, day);
                    assert(placed_on(all, day) == slots);
                }
            }
        }
        post(table, &names, &log, factor);
    }
}

/// The run that ends at `ends[k]`.
pub open spec fn run_of(sorted: Seq<Entry>, ends: Seq<int>, k: int) -> Seq<Entry> {
    sorted.subrange(run_start(ends, k), ends[k])
}

impl MonthProportional {
    /// The table after the runs that end at `ends` have been apportioned, one
    /// after the other, each on its own.
    pub open spec fn bucket_tables(
        &self,
        cells: Seq<CellView>,
        sorted: Seq<Entry>,
        ends: Seq<int>,
    ) -> Seq<CellView>
        decreases ends.len(),
    {
        if ends.len() == 0 {
            cells
        } else {
            self.slice_table(
                self.bucket_tables(cells, sorted, ends.drop_last()),
                run_of(sorted, ends, ends.len() - 1),
            )
        }
    }

    /// The table of the entries: they are sorted by day, cut into runs of one
    /// period each, and every run is apportioned on its own.
    pub open spec fn table_of(&self, entries: Seq<Entry>) -> Seq<CellView> {
        self.bucket_tables(
            Seq::empty(),
            sorted_by_day(entries),
            cuts(sorted_by_day(entries), self.period),
        )
    }

    /// Computes the table of the entries. The result is a function of the
    /// entries and the configuration alone; no day of it sums to more than
    /// 100, and every workday of a run that fills its workdays sums to
    /// exactly 100.
    pub fn process(&self, entries: Vec<Entry>) -> (table: Table)
        requires
            self.valid(),
            entries@.len() <= MAX_ITEMS,
            all_entries_valid(entries@),
        ensures
            table@ == self.table_of(entries@),
            forall|day: int| col_sum(table@, day) <= 100,
            forall|k: int, day: int|
                0 <= k < cuts(sorted_by_day(entries@), self.period).len() && self.fills_workdays(
                    run_of(sorted_by_day(entries@), cuts(sorted_by_day(entries@), self.period), k),
                ) && #[trigger] is_workday(
                    run_of(sorted_by_day(entries@), cuts(sorted_by_day(entries@), self.period), k),
                    day,
                ) ==> col_sum(table@, day) == 100,
            table.wf(),
    {
        let mut entries = entries;
        sort_by_start_day(&mut entries);
        let ends = partition(entries.as_slice(), &self.period);
        let n = entries.len();
        let count = ends.len();
        let ghost sorted = entries@;
        let ghost bounds = positions(ends@);
        let mut table = Table::new();
        let mut from: usize = 0;
        let mut k: usize = 0;
        proof {
            lemma_cuts(sorted, self.period, n as int);
            assert(bounds.take(0) =~= Seq::<int>::empty());
        }
        while k < count
            invariant
                self.valid(),
                sorted == entries@,
                n == sorted.len(),
                n <= MAX_ITEMS,
                all_entries_valid(sorted),
                days_ascend(sorted),
                bounds == positions(ends@),
                bounds == cuts(sorted, self.period),
                count == ends@.len(),
                0 <= k <= count,
                from == run_start(bounds, k as int),
                from <= n,
                table@ == self.bucket_tables(Seq::empty(), sorted, bounds.take(k as int)),
                forall|day: int| col_sum(table@, day) <= 100,
                forall|day: int|
                    col_sum(table@, day) != 0 ==> from > 0 && day <= sorted[from - 1].start_day(),
                forall|j: int, day: int|
                    0 <= j < k && self.fills_workdays(run_of(sorted, bounds, j))
                        && #[trigger] is_workday(run_of(sorted, bounds, j), day) ==> col_sum(
                        table@,
                        day,
                    ) == 100,
                table.wf(),
            decreases count - k,
        {
            let to = ends[k];
            proof {
                lemma_cuts(sorted, self.period, n as int);
                assert(bounds[k as int] == to as int);
                if k > 0 {
                    assert(bounds[k - 1] < bounds[k as int]);
                }
            }
            let slice = vstd::slice::slice_subrange(entries.as_slice(), from, to);
            let ghost before = table@;
            proof {
                assert forall|i: int| 0 <= i < slice@.len() implies (#[trigger] slice@[i]).valid() by {
                    assert(slice@[i] == sorted[from + i]);
                }
                assert forall|day: int| is_workday(slice@, day) implies col_sum(before, day) == 0 by {
                    let i = choose|i: int|
                        0 <= i < slice@.len() && !(#[trigger] slice@[i]).out_of_office()
                            && slice@[i].start_day() == day;
                    assert(slice@[i] == sorted[from + i]);
                    if col_sum(before, day) != 0 {
                        lemma_runs_hold_days_apart(
                            sorted,
                            self.period,
                            from - 1,
                            from as int,
                            from + i,
                        );
                    }
                }
            }
            self.process_slice(&mut table, slice);
            proof {
                assert(slice@ == run_of(sorted, bounds, k as int));
                assert forall|j: int, day: int|
                    0 <= j < k + 1 && self.fills_workdays(run_of(sorted, bounds, j))
                        && #[trigger] is_workday(run_of(sorted, bounds, j), day) implies col_sum(
                    table@,
                    day,
                ) == 100 by {
                    if j < k {
                        let run = run_of(sorted, bounds, j);
                        let i = choose|i: int|
                            0 <= i < run.len() && !(#[trigger] run[i]).out_of_office()
                                && run[i].start_day() == day;
                        assert(bounds[j] <= bounds[k - 1]) by {
                            if j < k - 1 {
                                assert(bounds[j] < bounds[k - 1]);
                            }
                        }
                        if j > 0 {
                            assert(bounds[j - 1] < bounds[j]);
                        }
                        let at = run_start(bounds, j) + i;
                        assert(run[i] == sorted[at]);
                        if is_workday(slice@, day) {
                            let other = choose|other: int|
                                0 <= other < slice@.len() && !(#[trigger] slice@[other]).out_of_office()
                                    && slice@[other].start_day() == day;
                            assert(slice@[other] == sorted[from + other]);
                            lemma_runs_hold_days_apart(
                                sorted,
                                self.period,
                                at,
                                from as int,
                                from + other,
                            );
                        }
                        assert(col_sum(table@, day) == col_sum(before, day));
                    }
                }
                assert(bounds.take(k as int + 1).drop_last() =~= bounds.take(k as int));
                assert(bounds.take(k as int + 1).last() == to as int);
                assert(run_start(bounds.take(k as int + 1), k as int) == from as int) by {
                    if k > 0 {
                        assert(bounds.take(k as int + 1)[k - 1] == bounds[k - 1]);
                    }
                }
                assert forall|day: int| col_sum(table@, day) <= 100 by {
                    if !is_workday(slice@, day) {
                        assert(col_sum(table@, day) == col_sum(before, day));
                    }
                }
                assert forall|day: int| col_sum(table@, day) != 0 implies day <= sorted[to
                    - 1].start_day() by {
                    if is_workday(slice@, day) {
                        let i = choose|i: int|
                            0 <= i < slice@.len() && !(#[trigger] slice@[i]).out_of_office()
                                && slice@[i].start_day() == day;
                        assert(slice@[i] == sorted[from + i]);
                        assert(sorted[from + i].start_day() <= sorted[to - 1].start_day());
                    } else {
                        assert(sorted[from - 1].start_day() <= sorted[to - 1].start_day());
                    }
                }
            }
            from = to;
            k += 1;
        }
        proof {
            assert(bounds.take(count as int) =~= bounds);
        }
        table
    }
}

/// A day on which an entry that counts as work starts is a day of the
/// bucket.
pub proof fn lemma_workday_is_bucket_day(entries: Seq<Entry>, day: int)
    requires
        all_entries_valid(entries),
        is_workday(entries, day),
    ensures
        days_of(working(items_of(entries))).contains(day),
{
    let items = items_of(entries);
    let w = working(items);
    let i = choose|i: int|
        0 <= i < entries.len() && !(#[trigger] entries[i]).out_of_office() && entries[i].start_day()
            == day;
    assert(entries[i].valid());
    crate::calendar::lemma_day_of_timestamp_in_range(entries[i].start as int);
    assert(items[i].working && items[i].day == day);
    lemma_working_source(items);
    assert(w.contains(items[i]));
    let at = choose|at: int| 0 <= at < w.len() && w[at] == items[i];
    assert(day_ids(w)[at] == day);
    lemma_distinct(day_ids(w));
}

/// Every placement of a bucket lies on one of its workdays, in a row that
/// `row_names` numbers.
pub proof fn lemma_placement(entries: Seq<Entry>, granularity: int, k: int)
    requires
        granularity > 0,
        all_entries_valid(entries),
        0 <= k < placements(items_of(entries), granularity).len(),
    ensures
        is_workday(entries, placements(items_of(entries), granularity)[k].day),
        0 <= placements(items_of(entries), granularity)[k].row < row_names(entries).len(),
{
    let items = items_of(entries);
    let w = working(items);
    let log = placements(items, granularity);
    lemma_no_day_over_capacity(items, granularity);
    let day = log[k].day;
    assert(days_of(w).contains(day));
    lemma_distinct(day_ids(w));
    let t = choose|t: int| 0 <= t < days_of(w).len() && days_of(w)[t] == day;
    assert(day_ids(w).contains(days_of(w)[t]));
    let at = choose|at: int| 0 <= at < w.len() && day_ids(w)[at] == day;
    lemma_working_source(items);
    crate::tablers::bucket::lemma_working(items);
    let i = choose|i: int| 0 <= i < items.len() && items[i] == w[at];
    assert(w[at].working);
    assert(!entries[i].out_of_office());
    crate::calendar::lemma_day_of_timestamp_in_range(entries[i].start as int);
    assert(entries[i].start_day() == day);
    lemma_placement_row(entries, granularity, k);
}

/// Every placement of a bucket names a row that `row_names` numbers.
pub proof fn lemma_placement_row(entries: Seq<Entry>, granularity: int, k: int)
    requires
        granularity > 0,
        0 <= k < placements(items_of(entries), granularity).len(),
    ensures
        0 <= placements(items_of(entries), granularity)[k].row < row_names(entries).len(),
{
    let items = items_of(entries);
    let w = working(items);
    lemma_no_day_over_capacity(items, granularity);
    let row = placements(items, granularity)[k].row;
    lemma_distinct(row_ids(w));
    let j = choose|j: int| 0 <= j < rows_of(w).len() && rows_of(w)[j] == row;
    assert(row_ids(w).contains(rows_of(w)[j]));
    let at = choose|at: int| 0 <= at < w.len() && row_ids(w)[at] == row;
    lemma_working_source(items);
    let i = choose|i: int| 0 <= i < items.len() && items[i] == w[at];
    lemma_distinct(row_keys(entries));
    let names = row_names(entries);
    assert(row_keys(entries)[i] == entries[i].row_key());
    assert(names.contains(entries[i].row_key()));
    let found = names.index_of(entries[i].row_key());
    assert(0 <= found < names.len());
}

} // verus!
