//! The period partitioner: entries in the order of their days, cut into runs
//! of one period each.

use crate::calendar::{
    civil_month, civil_year, iso_week, iso_week_of_day, lemma_day_of_timestamp_in_range,
    month_of_day, year_of_day,
};
use crate::entries::Entry;
use crate::ordering::{
    ascending, insert_point, is_permutation, lemma_insert_shape,
    lemma_stable_order, positions, stable_order,
};
use crate::tablers::month_proportional::{all_entries_valid, Period};
use vstd::prelude::*;

verus! {

/// The day on which each entry starts.
pub open spec fn start_days(entries: Seq<Entry>) -> Seq<int> {
    Seq::new(entries.len(), |i: int| entries[i].start_day())
}

/// The entries at the positions of `order`, in that order.
pub open spec fn arranged(entries: Seq<Entry>, order: Seq<int>) -> Seq<Entry> {
    Seq::new(order.len(), |k: int| entries[order[k]])
}

/// The entries by ascending day of start; entries of one day stay in their
/// order.
pub open spec fn sorted_by_day(entries: Seq<Entry>) -> Seq<Entry> {
    arranged(entries, stable_order(start_days(entries)))
}

/// Whether the days of start ascend.
pub open spec fn days_ascend(entries: Seq<Entry>) -> bool {
    forall|a: int, b: int|
        0 <= a <= b < entries.len() ==> (#[trigger] entries[a]).start_day() <= (
        #[trigger] entries[b]).start_day()
}

/// What entries of one period have in common, by the day on which they start:
/// the day, the ISO week, the year and month, the year, or nothing.
pub open spec fn period_key(period: Period, day: int) -> (int, int) {
    match period {
        Period::Day => (day, 0),
        Period::Week => iso_week(day),
        Period::Month => (civil_year(day), civil_month(day)),
        Period::Year => (civil_year(day), 0),
        Period::All => (0, 0),
    }
}

/// Whether two entries start in the same period.
pub open spec fn same_period(period: Period, a: Entry, b: Entry) -> bool {
    period_key(period, a.start_day()) == period_key(period, b.start_day())
}

/// Whether a run ends before position `at`: there the entries end, or the
/// entry at `at` starts in another period than the one before it.
pub open spec fn is_cut(entries: Seq<Entry>, period: Period, at: int) -> bool {
    at == entries.len() || !same_period(period, entries[at - 1], entries[at])
}

/// The ends of the runs among the first `upto` positions, ascending.
pub open spec fn cuts_upto(entries: Seq<Entry>, period: Period, upto: int) -> Seq<int>
    decreases upto,
{
    if upto <= 0 {
        Seq::empty()
    } else if is_cut(entries, period, upto) {
        cuts_upto(entries, period, upto - 1).push(upto)
    } else {
        cuts_upto(entries, period, upto - 1)
    }
}

/// The ends of the maximal runs of entries of one period, ascending: the last
/// is the number of entries.
pub open spec fn cuts(entries: Seq<Entry>, period: Period) -> Seq<int> {
    cuts_upto(entries, period, entries.len() as int)
}

/// Where the run that ends at `ends[k]` starts.
pub open spec fn run_start(ends: Seq<int>, k: int) -> int {
    if k == 0 {
        0
    } else {
        ends[k - 1]
    }
}

/// Whether the entries of every run that `ends` cuts start in one period.
pub open spec fn runs_share_period(entries: Seq<Entry>, period: Period, ends: Seq<int>) -> bool {
    forall|k: int, i: int, j: int|
        #![trigger ends[k], entries[i], entries[j]]
        0 <= k < ends.len() && run_start(ends, k) <= i <= j < ends[k] ==> same_period(
            period,
            entries[i],
            entries[j],
        )
}

/// The cuts are exactly the positions at which a run ends, in ascending order.
pub proof fn lemma_cuts(entries: Seq<Entry>, period: Period, upto: int)
    requires
        upto <= entries.len(),
    ensures
        forall|k: int|
            0 <= k < cuts_upto(entries, period, upto).len() ==> {
                &&& 0 < (#[trigger] cuts_upto(entries, period, upto)[k]) <= upto
                &&& is_cut(entries, period, cuts_upto(entries, period, upto)[k])
            },
        forall|a: int, b: int|
            0 <= a < b < cuts_upto(entries, period, upto).len() ==> cuts_upto(
                entries,
                period,
                upto,
            )[a] < cuts_upto(entries, period, upto)[b],
        forall|at: int|
            0 < at <= upto && is_cut(entries, period, at) ==> cuts_upto(
                entries,
                period,
                upto,
            ).contains(at),
        upto > 0 && upto == entries.len() ==> cuts_upto(entries, period, upto).len() > 0
            && cuts_upto(entries, period, upto).last() == upto,
    decreases upto,
{
    if upto > 0 {
        lemma_cuts(entries, period, upto - 1);
        let before = cuts_upto(entries, period, upto - 1);
        let all = cuts_upto(entries, period, upto);
        assert forall|at: int| 0 < at <= upto && is_cut(entries, period, at) implies all.contains(
            at,
        ) by {
            if at < upto {
                let k = choose|k: int| 0 <= k < before.len() && before[k] == at;
                assert(all[k] == at);
            } else {
                assert(all[all.len() - 1] == at);
            }
        }
    }
}

/// Entries with no cut between them start in the same period.
pub proof fn lemma_run_shares_period(entries: Seq<Entry>, period: Period, first: int, last: int)
    requires
        0 <= first <= last < entries.len(),
        forall|at: int| first < at <= last ==> !is_cut(entries, period, at),
    ensures
        same_period(period, entries[first], entries[last]),
    decreases last - first,
{
    if first < last {
        lemma_run_shares_period(entries, period, first, last - 1);
        assert(!is_cut(entries, period, last));
    }
}

/// The entries of a run between two cuts start in one period.
pub proof fn lemma_runs_share_period(entries: Seq<Entry>, period: Period)
    ensures
        runs_share_period(entries, period, cuts(entries, period)),
{
    let ends = cuts(entries, period);
    lemma_cuts(entries, period, entries.len() as int);
    assert forall|k: int, i: int, j: int|
        #![trigger ends[k], entries[i], entries[j]]
        0 <= k < ends.len() && run_start(ends, k) <= i <= j < ends[k] implies same_period(
        period,
        entries[i],
        entries[j],
    ) by {
        assert(0 < ends[k] <= entries.len());
        if k > 0 {
            assert(0 < ends[k - 1]);
        }
        assert forall|at: int| i < at <= j implies !is_cut(entries, period, at) by {
            if is_cut(entries, period, at) {
                let found = choose|found: int| 0 <= found < ends.len() && ends[found] == at;
                if found < k {
                    if found < k - 1 {
                        assert(ends[found] < ends[k - 1]);
                    }
                } else if found > k {
                    assert(ends[k] < ends[found]);
                }
            }
        }
        lemma_run_shares_period(entries, period, i, j);
    }
}

/// Runs hold days of their own: where the days ascend, an entry before a cut
/// starts on an earlier day than an entry behind it.
pub proof fn lemma_runs_hold_days_apart(
    entries: Seq<Entry>,
    period: Period,
    before: int,
    cut: int,
    behind: int,
)
    requires
        days_ascend(entries),
        0 <= before < cut <= behind < entries.len(),
        is_cut(entries, period, cut),
    ensures
        entries[before].start_day() < entries[behind].start_day(),
{
    assert(entries[before].start_day() <= entries[cut - 1].start_day());
    assert(entries[cut - 1].start_day() <= entries[cut].start_day());
    assert(entries[cut].start_day() <= entries[behind].start_day());
}

/// The entries sorted by day are the entries, every one once, and their days
/// ascend.
pub proof fn lemma_sorted_by_day(entries: Seq<Entry>)
    ensures
        sorted_by_day(entries).len() == entries.len(),
        days_ascend(sorted_by_day(entries)),
        is_permutation(stable_order(start_days(entries)), entries.len() as int),
        all_entries_valid(entries) ==> all_entries_valid(sorted_by_day(entries)),
{
    let keys = start_days(entries);
    let order = stable_order(keys);
    let sorted = sorted_by_day(entries);
    lemma_stable_order(keys);
    assert forall|a: int, b: int| 0 <= a <= b < sorted.len() implies (#[trigger] sorted[a]).start_day()
        <= (#[trigger] sorted[b]).start_day() by {
        if a < b {
            assert(crate::ordering::comes_before(keys, order[a], order[b]));
        }
    }
}

/// Sorts the entries by the day on which they start. Entries of one day stay
/// in their order. One pass from the back per entry: linear when the days
/// already ascend.
pub fn sort_by_start_day(entries: &mut Vec<Entry>)
    requires
        all_entries_valid(old(entries)@),
    ensures
        final(entries)@ == sorted_by_day(old(entries)@),
        final(entries)@.len() == old(entries)@.len(),
        all_entries_valid(final(entries)@),
        days_ascend(final(entries)@),
{
    let n = entries.len();
    let ghost source = entries@;
    let ghost keys = start_days(source);
    let ghost order: Seq<int> = Seq::empty();
    let mut i: usize = 0;
    while i < n
        invariant
            n == source.len(),
            entries@.len() == n,
            keys == start_days(source),
            all_entries_valid(source),
            all_entries_valid(entries@),
            0 <= i <= n,
            order == stable_order(keys.take(i as int)),
            is_permutation(order, i as int),
            forall|k: int| 0 <= k < i ==> entries@[k] == source[#[trigger] order[k]],
            forall|k: int| i <= k < n ==> #[trigger] entries@[k] == source[k],
        decreases n - i,
    {
        let ghost held = entries@;
        let day = entries[i].get_start_day();
        let mut j: usize = i;
        while j > 0 && entries[j - 1].get_start_day() > day
            invariant
                held == entries@,
                all_entries_valid(entries@),
                entries@.len() == n,
                i < n,
                0 <= j <= i,
                all_entries_valid(source),
                is_permutation(order, i as int),
                forall|k: int| 0 <= k < i ==> entries@[k] == source[#[trigger] order[k]],
                forall|k: int| j <= k < i ==> (#[trigger] entries@[k]).start_day() > day,
            decreases j,
        {
            j -= 1;
        }
        proof {
            let upto = keys.take(i as int + 1);
            lemma_insert_shape(upto, order, i as int);
            let at = insert_point(upto, order, i as int);
            assert(upto[i as int] == day);
            assert forall|k: int| 0 <= k < i implies upto[#[trigger] order[k]] == held[k].start_day() by {
                assert(held[k] == source[order[k]]);
            }
            if (j as int) < at {
                assert(upto[order[at - 1]] == held[at - 1].start_day());
            }
            if at < j {
                assert(upto[order[j - 1]] == held[j - 1].start_day());
            }
            assert(at == j);
            assert(upto.drop_last() =~= keys.take(i as int));
            order = order.insert(j as int, i as int);
            assert(order == stable_order(upto));
            lemma_stable_order(upto);
        }
        if j < i {
            let entry = entries.remove(i);
            entries.insert(j, entry);
        }
        proof {
            assert forall|k: int| 0 <= k < i + 1 implies entries@[k] == source[#[trigger] order[k]] by {
                if k < j {
                    assert(entries@[k] == held[k]);
                } else if k == j {
                    assert(entries@[k] == held[i as int]);
                } else {
                    assert(entries@[k] == held[k - 1]);
                }
            }
            assert forall|k: int| i + 1 <= k < n implies #[trigger] entries@[k] == source[k] by {
                assert(entries@[k] == held[k]);
            }
            assert forall|k: int| 0 <= k < n implies (#[trigger] entries@[k]).valid() by {
                if k < i + 1 {
                    assert(entries@[k] == source[order[k]]);
                } else {
                    assert(entries@[k] == source[k]);
                }
            }
        }
        i += 1;
    }
    proof {
        assert(keys.take(n as int) =~= keys);
        assert(entries@ =~= sorted_by_day(source));
        lemma_sorted_by_day(source);
    }
}

/// Whether two entries start in the same period.
pub fn in_same_period(period: &Period, a: &Entry, b: &Entry) -> (same: bool)
    requires
        a.valid(),
        b.valid(),
    ensures
        same == same_period(*period, *a, *b),
{
    let first = a.get_start_day();
    let second = b.get_start_day();
    proof {
        lemma_day_of_timestamp_in_range(a.start as int);
        lemma_day_of_timestamp_in_range(b.start as int);
    }
    match period {
        Period::Day => first == second,
        Period::Week => {
            let one = iso_week_of_day(first as i32);
            let other = iso_week_of_day(second as i32);
            one.0 == other.0 && one.1 == other.1
        },
        Period::Month => {
            year_of_day(first as i32) == year_of_day(second as i32) && month_of_day(first as i32)
                == month_of_day(second as i32)
        },
        Period::Year => year_of_day(first as i32) == year_of_day(second as i32),
        Period::All => true,
    }
}

/// Cuts the entries into maximal runs of one period and gives the end of each
/// run. The entries are taken in the order given.
pub fn partition(entries: &[Entry], period: &Period) -> (ends: Vec<usize>)
    requires
        all_entries_valid(entries@),
    ensures
        positions(ends@) == cuts(entries@, *period),
        runs_share_period(entries@, *period, positions(ends@)),
{
    proof {
        lemma_runs_share_period(entries@, *period);
    }
    let n = entries.len();
    let mut ends: Vec<usize> = Vec::new();
    let mut at: usize = 0;
    proof {
        assert(positions(ends@) =~= cuts_upto(entries@, *period, 0));
    }
    while at < n
        invariant
            n == entries@.len(),
            all_entries_valid(entries@),
            0 <= at <= n,
            positions(ends@) == cuts_upto(entries@, *period, at as int),
        decreases n - at,
    {
        at += 1;
        let ghost before = positions(ends@);
        let cut = if at == n {
            true
        } else {
            assert(entries@[at - 1].valid() && entries@[at as int].valid());
            !in_same_period(period, &entries[at - 1], &entries[at])
        };
        if cut {
            ends.push(at);
            proof {
                assert(positions(ends@) =~= before.push(at as int));
            }
        }
    }
    ends
}

} // verus!
