//! The table is a function of what the entries hold.

use crate::entries::Entry;
use crate::ordering::stable_order;
use crate::tablers::month_proportional::{
    items_of, row_keys, row_names, run_of, MonthProportional, Period,
};
use crate::tablers::partition::{
    cuts, cuts_upto, lemma_cuts, run_start, sorted_by_day, start_days,
};
use crate::tablers::CellView;
use vstd::prelude::*;

verus! {

/// Whether two sequences of entries hold the same: as many entries, and at
/// every position entries with the same texts, tags and numbers.
pub open spec fn same_content(a: Seq<Entry>, b: Seq<Entry>) -> bool {
    &&& a.len() == b.len()
    &&& forall|i: int|
        #![trigger a[i]]
        #![trigger b[i]]
        0 <= i < a.len() ==> a[i]@ == b[i]@
}

/// What the engine reads of an entry is a matter of what the entry holds.
pub proof fn lemma_entry_content(x: Entry, y: Entry)
    requires
        x@ == y@,
    ensures
        x.row_key() == y.row_key(),
        x.start_day() == y.start_day(),
        x.spec_duration() == y.spec_duration(),
        x.absolute == y.absolute,
        x.out_of_office() == y.out_of_office(),
        x.valid() == y.valid(),
{
    assert(x@.tags.len() == x.tags@.len());
    assert(y@.tags.len() == y.tags@.len());
    if x.out_of_office() {
        let i = choose|i: int|
            0 <= i < x.tags@.len() && (#[trigger] x.tags@[i])@ == "out-of-office"@;
        assert(x@.tags[i] == y@.tags[i]);
        assert(y.tags@[i]@ == "out-of-office"@);
    }
    if y.out_of_office() {
        let i = choose|i: int|
            0 <= i < y.tags@.len() && (#[trigger] y.tags@[i])@ == "out-of-office"@;
        assert(x@.tags[i] == y@.tags[i]);
        assert(x.tags@[i]@ == "out-of-office"@);
    }
    assert(x@.absolute == y@.absolute);
}

/// The rows and the items of entries are a matter of what the entries hold.
pub proof fn lemma_items_content(a: Seq<Entry>, b: Seq<Entry>)
    requires
        same_content(a, b),
    ensures
        row_names(a) == row_names(b),
        items_of(a) == items_of(b),
        start_days(a) == start_days(b),
{
    assert forall|i: int| 0 <= i < a.len() implies row_keys(a)[i] == row_keys(b)[i] && start_days(
        a,
    )[i] == start_days(b)[i] && items_of(a)[i].day == items_of(b)[i].day && items_of(a)[i].seconds
        == items_of(b)[i].seconds && items_of(a)[i].absolute == items_of(b)[i].absolute && items_of(
        a,
    )[i].working == items_of(b)[i].working by {
        assert(a[i]@ == b[i]@);
        lemma_entry_content(a[i], b[i]);
    }
    assert(row_keys(a) =~= row_keys(b));
    assert(start_days(a) =~= start_days(b));
    assert forall|i: int| 0 <= i < a.len() implies items_of(a)[i] == items_of(b)[i] by {
        assert(row_keys(a)[i] == row_keys(b)[i]);
    }
    assert(items_of(a) =~= items_of(b));
}

/// Sorting does to entries that hold the same the same.
pub proof fn lemma_sorted_content(a: Seq<Entry>, b: Seq<Entry>)
    requires
        same_content(a, b),
    ensures
        same_content(sorted_by_day(a), sorted_by_day(b)),
{
    lemma_items_content(a, b);
    crate::ordering::lemma_stable_order(start_days(a));
    let order = stable_order(start_days(a));
    assert forall|k: int| 0 <= k < sorted_by_day(a).len() implies sorted_by_day(a)[k]@
        == sorted_by_day(b)[k]@ by {
        assert(0 <= order[k] < a.len());
        assert(a[order[k]]@ == b[order[k]]@);
    }
}

/// Entries that hold the same are cut at the same positions.
pub proof fn lemma_cuts_content(a: Seq<Entry>, b: Seq<Entry>, period: Period, upto: int)
    requires
        same_content(a, b),
        upto <= a.len(),
    ensures
        cuts_upto(a, period, upto) == cuts_upto(b, period, upto),
    decreases upto,
{
    if upto > 0 {
        lemma_cuts_content(a, b, period, upto - 1);
        if upto < a.len() {
            assert(a[upto - 1]@ == b[upto - 1]@);
            assert(a[upto]@ == b[upto]@);
            lemma_entry_content(a[upto - 1], b[upto - 1]);
            lemma_entry_content(a[upto], b[upto]);
        }
    }
}

/// A bucket of entries that hold the same changes a table in the same way.
pub proof fn lemma_slice_table_content(
    tabler: MonthProportional,
    cells: Seq<CellView>,
    a: Seq<Entry>,
    b: Seq<Entry>,
)
    requires
        same_content(a, b),
    ensures
        tabler.slice_table(cells, a) == tabler.slice_table(cells, b),
{
    lemma_items_content(a, b);
}

/// Runs of entries that hold the same change a table in the same way.
proof fn lemma_bucket_tables_content(
    tabler: MonthProportional,
    cells: Seq<CellView>,
    a: Seq<Entry>,
    b: Seq<Entry>,
    ends: Seq<int>,
)
    requires
        same_content(a, b),
        forall|k: int| 0 <= k < ends.len() ==> 0 < #[trigger] ends[k] <= a.len(),
        forall|i: int, j: int| 0 <= i < j < ends.len() ==> ends[i] < ends[j],
    ensures
        tabler.bucket_tables(cells, a, ends) == tabler.bucket_tables(cells, b, ends),
    decreases ends.len(),
{
    if ends.len() > 0 {
        let front = ends.drop_last();
        assert forall|k: int| 0 <= k < front.len() implies 0 < #[trigger] front[k] <= a.len() by {
            assert(front[k] == ends[k]);
        }
        assert forall|i: int, j: int| 0 <= i < j < front.len() implies front[i] < front[j] by {
            assert(ends[i] < ends[j]);
        }
        lemma_bucket_tables_content(tabler, cells, a, b, front);
        let last = ends.len() - 1;
        let from = run_start(ends, last);
        let to = ends[last];
        if last > 0 {
            assert(ends[last - 1] < ends[last]);
            assert(0 < ends[last - 1]);
        }
        assert(0 < to <= a.len());
        let one = run_of(a, ends, last);
        let other = run_of(b, ends, last);
        assert(same_content(one, other)) by {
            assert forall|i: int| 0 <= i < one.len() implies one[i]@ == other[i]@ by {
                assert(one[i] == a[from + i]);
                assert(other[i] == b[from + i]);
                assert(a[from + i]@ == b[from + i]@);
            }
        }
        lemma_slice_table_content(tabler, tabler.bucket_tables(cells, a, front), one, other);
    }
}

/// Determinism. The table is a function of what the entries hold and of the
/// configuration: entries that hold the same, in the same order, give the same
/// cells in the same order.
pub proof fn lemma_same_content_same_table(tabler: MonthProportional, a: Seq<Entry>, b: Seq<Entry>)
    requires
        same_content(a, b),
    ensures
        tabler.table_of(a) == tabler.table_of(b),
{
    lemma_sorted_content(a, b);
    let one = sorted_by_day(a);
    let other = sorted_by_day(b);
    lemma_cuts_content(one, other, tabler.period, one.len() as int);
    lemma_cuts(one, tabler.period, one.len() as int);
    lemma_bucket_tables_content(tabler, Seq::empty(), one, other, cuts(one, tabler.period));
}

} // verus!
