//! No day takes more than its slots.

use crate::interning::lemma_distinct;
use crate::ordering::{lemma_stable_order, stable_order};
use crate::tablers::bucket::{
    day_ids, days_of, row_ids, rows_of, total_absolute, working, Item,
};
use crate::tablers::placement::{
    any_day_pass, closing_ledger, members, opening, own_days_pass, owing, place_row, place_rows,
    placed_quotas, placements, settle, Ledger, Placed,
};
use crate::tablers::quota::{lemma_quotas_len, quotas, rates_of, Rates};
use vstd::prelude::*;

verus! {

/// The slots that `log` puts on `day`.
pub open spec fn placed_on(log: Seq<Placed>, day: int) -> int
    decreases log.len(),
{
    if log.len() == 0 {
        0
    } else {
        placed_on(log.drop_last(), day) + if log.last().day == day {
            log.last().amount
        } else {
            0
        }
    }
}

/// The ledger accounts for every slot: what a day has left and what was put
/// on it make up its slots, and nothing was put on any other day, nor for any
/// row but those of `rows`.
pub open spec fn balanced(l: Ledger, rows: Seq<int>, days: Seq<int>, granularity: int) -> bool {
    &&& l.caps.len() == days.len()
    &&& forall|k: int| 0 <= k < l.log.len() ==> rows.contains((#[trigger] l.log[k]).row)
    &&& forall|t: int|
        0 <= t < days.len() ==> 0 <= #[trigger] l.caps[t] && placed_on(l.log, days[t]) + l.caps[t]
            == granularity
    &&& forall|k: int|
        0 <= k < l.log.len() ==> 0 <= (#[trigger] l.log[k]).amount && days.contains(l.log[k].day)
}

/// Rates whose shares are not negative.
pub open spec fn sound(rates: Rates) -> bool {
    &&& rates.granularity > 0
    &&& rates.pool >= 0
    &&& rates.weight >= 1
}

/// The share of a single item is not negative.
pub proof fn lemma_ideal_not_negative(rates: Rates, units: int, seconds: int)
    requires
        sound(rates),
        units >= 0,
        seconds >= 0,
    ensures
        rates.ideal(units, seconds) >= 0,
{
    let numerator = units * rates.granularity * rates.weight + seconds * rates.pool;
    assert(numerator >= 0) by (nonlinear_arith)
        requires
            numerator == units * rates.granularity * rates.weight + seconds * rates.pool,
            units >= 0,
            seconds >= 0,
            rates.granularity > 0,
            rates.pool >= 0,
            rates.weight >= 1,
    ;
    assert(numerator / rates.unit() >= 0) by (nonlinear_arith)
        requires
            numerator >= 0,
            rates.unit() == 1000 * rates.weight,
            rates.weight >= 1,
    ;
}

/// The rates of a bucket are sound.
pub proof fn lemma_rates_sound(w: Seq<Item>, granularity: int)
    requires
        granularity > 0,
    ensures
        sound(rates_of(w, granularity)),
{
    let capacity = days_of(w).len() * 1000;
    let claimed = total_absolute(w);
    if capacity > claimed {
        assert((capacity - claimed) * granularity >= 0) by (nonlinear_arith)
            requires
                capacity - claimed > 0,
                granularity > 0,
        ;
    }
}

/// A placement within what the day has left keeps the ledger balanced.
proof fn lemma_settle_balanced(
    l: Ledger,
    rows: Seq<int>,
    days: Seq<int>,
    granularity: int,
    row: int,
    slot: int,
    amount: int,
)
    requires
        balanced(l, rows, days, granularity),
        rows.contains(row),
        days.no_duplicates(),
        0 <= slot < days.len(),
        0 <= amount <= l.caps[slot],
    ensures
        balanced(settle(l, row, days[slot], slot, amount), rows, days, granularity),
{
    let after = settle(l, row, days[slot], slot, amount);
    assert(after.log.drop_last() =~= l.log);
    assert forall|t: int| 0 <= t < days.len() implies 0 <= #[trigger] after.caps[t] && placed_on(
        after.log,
        days[t],
    ) + after.caps[t] == granularity by {
        assert(0 <= l.caps[t]);
        if t != slot {
            assert(days[t] != days[slot]);
        }
    }
    assert forall|k: int| 0 <= k < after.log.len() implies 0 <= (#[trigger] after.log[k]).amount
        && days.contains(after.log[k].day) && rows.contains(after.log[k].row) by {
        if k < l.log.len() {
            assert(after.log[k] == l.log[k]);
        } else {
            assert(days[slot] == after.log[k].day);
        }
    }
}

/// The positions of a row's items are positions of items.
pub proof fn lemma_members(w: Seq<Item>, row: int)
    ensures
        forall|k: int|
            0 <= k < members(w, row).len() ==> 0 <= #[trigger] members(w, row)[k] < w.len(),
    decreases w.len(),
{
    if w.len() > 0 {
        lemma_members(w.drop_last(), row);
        let front = members(w.drop_last(), row);
        let all = members(w, row);
        assert forall|k: int| 0 <= k < all.len() implies 0 <= #[trigger] all[k] < w.len() by {
            if k < front.len() {
                assert(all[k] == front[k]);
            }
        }
    }
}

/// The day of every item is one of the bucket's days, at the index that
/// `index_of` gives.
pub proof fn lemma_day_index(w: Seq<Item>, at: int)
    requires
        0 <= at < w.len(),
    ensures
        0 <= days_of(w).index_of(w[at].day as int) < days_of(w).len(),
        days_of(w)[days_of(w).index_of(w[at].day as int)] == w[at].day,
{
    lemma_distinct(day_ids(w));
    assert(day_ids(w)[at] == w[at].day as int);
    assert(days_of(w).contains(w[at].day as int));
}

/// Drawing on a row's own days keeps the ledger balanced.
proof fn lemma_own_days_balanced(
    l: Ledger,
    w: Seq<Item>,
    rates: Rates,
    granularity: int,
    turns: Seq<int>,
    bounded: bool,
)
    requires
        balanced(l, rows_of(w), days_of(w), granularity),
        sound(rates),
        forall|k: int| 0 <= k < turns.len() ==> 0 <= #[trigger] turns[k] < w.len(),
    ensures
        balanced(
            own_days_pass(l, w, rates, days_of(w), turns, bounded),
            rows_of(w),
            days_of(w),
            granularity,
        ),
    decreases turns.len(),
{
    if turns.len() > 0 {
        let days = days_of(w);
        lemma_own_days_balanced(l, w, rates, granularity, turns.drop_last(), bounded);
        let before = own_days_pass(l, w, rates, days, turns.drop_last(), bounded);
        let item = w[turns.last()];
        let slot = days.index_of(item.day as int);
        if before.due > 0 {
            lemma_day_index(w, turns.last());
            lemma_distinct(day_ids(w));
            lemma_distinct(row_ids(w));
            assert(row_ids(w)[turns.last()] == item.row as int);
            lemma_ideal_not_negative(rates, item.absolute_units(), item.relative_seconds());
            assert(0 <= before.caps[slot]);
            let open = if before.due <= before.caps[slot] {
                before.due
            } else {
                before.caps[slot]
            };
            let ideal = rates.ideal(item.absolute_units(), item.relative_seconds());
            let amount = if bounded {
                if open <= ideal {
                    open
                } else {
                    ideal
                }
            } else {
                open
            };
            lemma_settle_balanced(
                before,
                rows_of(w),
                days,
                granularity,
                item.row as int,
                slot,
                amount,
            );
        }
    }
}

/// Drawing on any day keeps the ledger balanced.
proof fn lemma_any_day_balanced(
    l: Ledger,
    rows: Seq<int>,
    days: Seq<int>,
    granularity: int,
    row: int,
    order: Seq<int>,
)
    requires
        balanced(l, rows, days, granularity),
        rows.contains(row),
        days.no_duplicates(),
        forall|k: int| 0 <= k < order.len() ==> 0 <= #[trigger] order[k] < days.len(),
    ensures
        balanced(any_day_pass(l, row, days, order), rows, days, granularity),
    decreases order.len(),
{
    if order.len() > 0 {
        lemma_any_day_balanced(l, rows, days, granularity, row, order.drop_last());
        let before = any_day_pass(l, row, days, order.drop_last());
        let slot = order.last();
        if before.due > 0 {
            assert(0 <= before.caps[slot]);
            let amount = if before.due <= before.caps[slot] {
                before.due
            } else {
                before.caps[slot]
            };
            lemma_settle_balanced(before, rows, days, granularity, row, slot, amount);
        }
    }
}

/// Serving a row keeps the ledger balanced.
proof fn lemma_place_row_balanced(
    l: Ledger,
    w: Seq<Item>,
    rates: Rates,
    granularity: int,
    row: int,
    quota: int,
)
    requires
        balanced(l, rows_of(w), days_of(w), granularity),
        rows_of(w).contains(row),
        sound(rates),
    ensures
        balanced(
            place_row(l, w, rates, days_of(w), row, quota),
            rows_of(w),
            days_of(w),
            granularity,
        ),
{
    let days = days_of(w);
    lemma_members(w, row);
    lemma_distinct(day_ids(w));
    let start = owing(l, quota);
    assert(balanced(start, rows_of(w), days, granularity));
    lemma_own_days_balanced(start, w, rates, granularity, members(w, row), true);
    let first = own_days_pass(start, w, rates, days, members(w, row), true);
    lemma_own_days_balanced(first, w, rates, granularity, members(w, row), false);
    let second = own_days_pass(first, w, rates, days, members(w, row), false);
    lemma_stable_order(second.caps);
    lemma_any_day_balanced(
        second,
        rows_of(w),
        days,
        granularity,
        row,
        stable_order(second.caps),
    );
}

/// Serving rows keeps the ledger balanced.
proof fn lemma_place_rows_balanced(
    l: Ledger,
    w: Seq<Item>,
    rates: Rates,
    granularity: int,
    quota: Seq<int>,
    visit: Seq<int>,
)
    requires
        balanced(l, rows_of(w), days_of(w), granularity),
        sound(rates),
        forall|k: int| 0 <= k < visit.len() ==> 0 <= #[trigger] visit[k] < rows_of(w).len(),
    ensures
        balanced(
            place_rows(l, w, rates, rows_of(w), days_of(w), quota, visit),
            rows_of(w),
            days_of(w),
            granularity,
        ),
    decreases visit.len(),
{
    if visit.len() > 0 {
        lemma_place_rows_balanced(l, w, rates, granularity, quota, visit.drop_last());
        let before = place_rows(l, w, rates, rows_of(w), days_of(w), quota, visit.drop_last());
        assert(rows_of(w)[visit.last()] == rows_of(w)[visit[visit.len() - 1]]);
        lemma_place_row_balanced(
            before,
            w,
            rates,
            granularity,
            rows_of(w)[visit.last()],
            quota[visit.last()],
        );
    }
}

/// A day that no placement names has nothing on it.
pub proof fn lemma_placed_on_other_day(log: Seq<Placed>, day: int)
    requires
        forall|k: int| 0 <= k < log.len() ==> (#[trigger] log[k]).day != day,
    ensures
        placed_on(log, day) == 0,
    decreases log.len(),
{
    if log.len() > 0 {
        assert forall|k: int| 0 <= k < log.drop_last().len() implies (#[trigger] log.drop_last()[k]).day
            != day by {
            assert(log[k].day != day);
        }
        lemma_placed_on_other_day(log.drop_last(), day);
        assert(log.last() == log[log.len() - 1]);
    }
}

/// With amounts that are not negative, a day holds no less after more
/// placements.
pub proof fn lemma_placed_on_grows(log: Seq<Placed>, upto: int, day: int)
    requires
        0 <= upto <= log.len(),
        forall|k: int| 0 <= k < log.len() ==> 0 <= (#[trigger] log[k]).amount,
    ensures
        0 <= placed_on(log.take(upto), day) <= placed_on(log, day),
    decreases log.len() - upto,
{
    if upto < log.len() {
        lemma_placed_on_grows(log, upto + 1, day);
        assert(log.take(upto + 1).drop_last() =~= log.take(upto));
        assert(log.take(upto + 1).last() == log[upto]);
        lemma_placed_on_not_negative(log.take(upto), day);
    } else {
        assert(log.take(upto) =~= log);
        lemma_placed_on_not_negative(log, day);
    }
}

/// With amounts that are not negative, no day holds less than nothing.
pub proof fn lemma_placed_on_not_negative(log: Seq<Placed>, day: int)
    requires
        forall|k: int| 0 <= k < log.len() ==> 0 <= (#[trigger] log[k]).amount,
    ensures
        0 <= placed_on(log, day),
    decreases log.len(),
{
    if log.len() > 0 {
        assert forall|k: int| 0 <= k < log.drop_last().len() implies 0 <= (
        #[trigger] log.drop_last()[k]).amount by {
            assert(0 <= log[k].amount);
        }
        lemma_placed_on_not_negative(log.drop_last(), day);
        assert(log.last() == log[log.len() - 1]);
    }
}

/// The day placement allocator never overfills a day, whatever the quotas:
/// every placement is of no less than nothing, on a day on which a working
/// item starts and in a row of a working item, and the placements on one day
/// add up to no more than the day's slots.
pub proof fn lemma_allocator_within_capacity(w: Seq<Item>, rates: Rates, quota: Seq<int>)
    requires
        sound(rates),
        quota.len() == rows_of(w).len(),
    ensures
        balanced(closing_ledger(w, rates, quota), rows_of(w), days_of(w), rates.granularity),
        forall|day: int|
            0 <= #[trigger] placed_on(placed_quotas(w, rates, quota), day) <= rates.granularity,
        forall|k: int|
            0 <= k < placed_quotas(w, rates, quota).len() ==> {
                &&& 0 <= (#[trigger] placed_quotas(w, rates, quota)[k]).amount <= rates.granularity
                &&& days_of(w).contains(placed_quotas(w, rates, quota)[k].day)
                &&& rows_of(w).contains(placed_quotas(w, rates, quota)[k].row)
            },
{
    let days = days_of(w);
    let granularity = rates.granularity;
    let start = opening(days, granularity);
    assert(balanced(start, rows_of(w), days, granularity));
    lemma_stable_order(quota);
    lemma_place_rows_balanced(start, w, rates, granularity, quota, stable_order(quota));
    let end = closing_ledger(w, rates, quota);
    let log = placed_quotas(w, rates, quota);
    assert forall|day: int| 0 <= #[trigger] placed_on(log, day) <= granularity by {
        lemma_placed_on_not_negative(log, day);
        if days.contains(day) {
            let t = choose|t: int| 0 <= t < days.len() && days[t] == day;
            assert(0 <= end.caps[t]);
        } else {
            lemma_placed_on_other_day(log, day);
        }
    }
    assert forall|k: int| 0 <= k < log.len() implies 0 <= (#[trigger] log[k]).amount
        <= granularity by {
        lemma_amount_within_day(log, k);
        assert(placed_on(log, log[k].day) <= granularity);
    }
}

/// No over-capacity. No day of a bucket takes more than `granularity` slots,
/// whatever the items: every placement is of no less than nothing, on a day on
/// which a working item starts, and the placements on one day add up to no
/// more than the day's slots.
pub proof fn lemma_no_day_over_capacity(items: Seq<Item>, granularity: int)
    requires
        granularity > 0,
    ensures
        forall|day: int|
            0 <= #[trigger] placed_on(placements(items, granularity), day) <= granularity,
        forall|k: int|
            0 <= k < placements(items, granularity).len() ==> {
                &&& 0 <= (#[trigger] placements(items, granularity)[k]).amount <= granularity
                &&& days_of(working(items)).contains(placements(items, granularity)[k].day)
                &&& rows_of(working(items)).contains(placements(items, granularity)[k].row)
            },
{
    let w = working(items);
    lemma_rates_sound(w, granularity);
    lemma_quotas_len(w, granularity);
    lemma_allocator_within_capacity(w, rates_of(w, granularity), quotas(w, granularity));
}

/// A single placement is no more than all the placements on its day.
pub proof fn lemma_amount_within_day(log: Seq<Placed>, at: int)
    requires
        0 <= at < log.len(),
        forall|k: int| 0 <= k < log.len() ==> 0 <= (#[trigger] log[k]).amount,
    ensures
        log[at].amount <= placed_on(log, log[at].day),
    decreases log.len(),
{
    let day = log[at].day;
    assert forall|k: int| 0 <= k < log.drop_last().len() implies 0 <= (
    #[trigger] log.drop_last()[k]).amount by {
        assert(0 <= log[k].amount);
    }
    if at == log.len() - 1 {
        lemma_placed_on_not_negative(log.drop_last(), day);
    } else {
        lemma_amount_within_day(log.drop_last(), at);
        assert(log.drop_last()[at] == log[at]);
        assert(0 <= log[log.len() - 1].amount);
    }
}

} // verus!
