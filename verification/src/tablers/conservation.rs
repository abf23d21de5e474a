//! What the apportionment gives out, and that all of it is placed.

use crate::interning::lemma_distinct;
use crate::numbers::{
    least, lemma_total_constant, lemma_total_not_negative, lemma_total_nothing, lemma_total_take,
    lemma_total_update, lemma_total_zeros, not_negative, picked, total,
};
use crate::ordering::{lemma_stable_order, lemma_stable_order_total, stable_order};
use crate::tablers::bucket::{
    days_of, row_absolute, row_ids, row_relative, rows_of, total_absolute,
    total_relative, working, Item,
};
use crate::tablers::capacity::{
    balanced, lemma_allocator_within_capacity, lemma_day_index, lemma_ideal_not_negative,
    lemma_members, lemma_rates_sound, placed_on, sound,
};
use crate::tablers::placement::{
    any_day_pass, closing_ledger, members, opening, own_days_pass, owing, place_row, place_rows,
    placements, settle, Ledger, Placed,
};
use crate::tablers::quota::{
    absolute_claims, apportioned, apportionment, bonus_order, bonus_pass, budget_of, claim_pass,
    lemma_quotas_len, quotas, rates_of, relative_claims, remainders, Rates, Round,
};
use vstd::prelude::*;

verus! {

/// One for each positive remainder, nothing for the others.
pub open spec fn flags(remainder: Seq<int>) -> Seq<int> {
    Seq::new(
        remainder.len(),
        |j: int|
            if remainder[j] > 0 {
                1int
            } else {
                0int
            },
    )
}

/// The number of positive remainders.
pub open spec fn positives(remainder: Seq<int>) -> int {
    total(flags(remainder))
}

/// The slots that a log places in all.
pub open spec fn placed_total(log: Seq<Placed>) -> int
    decreases log.len(),
{
    if log.len() == 0 {
        0
    } else {
        placed_total(log.drop_last()) + log.last().amount
    }
}

/// A pass of claims gives out the claims of the rows it reaches, or all that
/// was left, and nothing is lost.
pub proof fn lemma_claim_pass_total(start: Round, claims: Seq<int>, upto: int)
    requires
        0 <= upto <= start.quota.len(),
        upto <= claims.len(),
        not_negative(claims),
        start.left >= 0,
    ensures
        claim_pass(start, claims, upto).quota.len() == start.quota.len(),
        claim_pass(start, claims, upto).left == start.left - least(
            start.left,
            total(claims.take(upto)),
        ),
        total(claim_pass(start, claims, upto).quota) + claim_pass(start, claims, upto).left
            == total(start.quota) + start.left,
        forall|j: int|
            0 <= j < start.quota.len() ==> #[trigger] claim_pass(start, claims, upto).quota[j]
                >= start.quota[j],
    decreases upto,
{
    if upto > 0 {
        lemma_claim_pass_total(start, claims, upto - 1);
        let before = claim_pass(start, claims, upto - 1);
        let given = least(claims[upto - 1], before.left);
        lemma_total_update(before.quota, upto - 1, given);
        assert(claims.take(upto).drop_last() =~= claims.take(upto - 1));
        assert(claims.take(upto).last() == claims[upto - 1]);
        lemma_total_take(claims, upto - 1);
        assert(0 <= claims[upto - 1]);
    } else {
        assert(claims.take(0) =~= Seq::<int>::empty());
    }
}

/// The pass of the remainders gives out one slot for each positive remainder
/// among the rows of `order`, or all that was left, and nothing is lost.
pub proof fn lemma_bonus_pass_total(start: Round, remainder: Seq<int>, order: Seq<int>)
    requires
        forall|k: int| 0 <= k < order.len() ==> 0 <= #[trigger] order[k] < start.quota.len(),
        remainder.len() == start.quota.len(),
        start.left >= 0,
    ensures
        bonus_pass(start, remainder, order).quota.len() == start.quota.len(),
        bonus_pass(start, remainder, order).left == start.left - least(
            start.left,
            total(picked(flags(remainder), order)),
        ),
        total(bonus_pass(start, remainder, order).quota) + bonus_pass(start, remainder, order).left
            == total(start.quota) + start.left,
        forall|j: int|
            0 <= j < start.quota.len() ==> #[trigger] bonus_pass(start, remainder, order).quota[j]
                >= start.quota[j],
    decreases order.len(),
{
    let wanted = picked(flags(remainder), order);
    if order.len() > 0 {
        let front = order.drop_last();
        lemma_bonus_pass_total(start, remainder, front);
        let before = bonus_pass(start, remainder, front);
        let row = order.last();
        assert(row == order[order.len() - 1]);
        let given = if remainder[row] > 0 && before.left > 0 {
            1int
        } else {
            0int
        };
        lemma_total_update(before.quota, row, given);
        assert(wanted.drop_last() =~= picked(flags(remainder), front));
        assert(wanted.last() == flags(remainder)[row]);
        assert(not_negative(picked(flags(remainder), front)));
        lemma_total_not_negative(picked(flags(remainder), front));
    } else {
        assert(wanted =~= Seq::<int>::empty());
    }
}

/// What the apportionment gives out: its budget, or where that is less, the
/// whole slots of all shares and one slot for each positive remainder. No row
/// gets less than nothing.
pub proof fn lemma_apportioned_total(
    absolute: Seq<int>,
    relative: Seq<int>,
    remainder: Seq<int>,
    budget: int,
)
    requires
        absolute.len() == relative.len(),
        absolute.len() == remainder.len(),
        not_negative(absolute),
        not_negative(relative),
        budget >= 0,
    ensures
        apportioned(absolute, relative, remainder, budget).len() == absolute.len(),
        total(apportioned(absolute, relative, remainder, budget)) == least(
            budget,
            total(absolute) + total(relative) + positives(remainder),
        ),
        not_negative(apportioned(absolute, relative, remainder, budget)),
{
    let n = absolute.len() as int;
    let start = Round { quota: Seq::new(absolute.len(), |j: int| 0int), left: budget };
    lemma_total_zeros(start.quota);
    lemma_claim_pass_total(start, absolute, n);
    let first = claim_pass(start, absolute, n);
    lemma_claim_pass_total(first, relative, n);
    let second = claim_pass(first, relative, n);
    let order = bonus_order(remainder);
    lemma_stable_order(remainder.map_values(|r: int| -r));
    lemma_bonus_pass_total(second, remainder, order);
    lemma_stable_order_total(remainder.map_values(|r: int| -r), flags(remainder));
    assert(absolute.take(n) =~= absolute);
    assert(relative.take(n) =~= relative);
    lemma_total_not_negative(absolute);
    lemma_total_not_negative(relative);
    assert(not_negative(flags(remainder)));
    lemma_total_not_negative(flags(remainder));
    let last = bonus_pass(second, remainder, order);
    assert forall|j: int| 0 <= j < last.quota.len() implies 0 <= #[trigger] last.quota[j] by {
        assert(first.quota[j] >= start.quota[j]);
        assert(second.quota[j] >= first.quota[j]);
        assert(last.quota[j] >= second.quota[j]);
    }
}

/// The overrides of a row sum to no less than nothing, and so do its relative
/// seconds.
pub proof fn lemma_row_sums_not_negative(w: Seq<Item>, row: int)
    ensures
        0 <= row_absolute(w, row),
        0 <= row_relative(w, row),
    decreases w.len(),
{
    if w.len() > 0 {
        lemma_row_sums_not_negative(w.drop_last(), row);
    }
}

/// No row of a bucket claims less than nothing.
pub proof fn lemma_claims_not_negative(w: Seq<Item>, granularity: int)
    requires
        granularity > 0,
    ensures
        not_negative(absolute_claims(w, granularity)),
        not_negative(relative_claims(w, granularity)),
        not_negative(remainders(w, granularity)),
        budget_of(w, granularity) >= 0,
{
    let rates = rates_of(w, granularity);
    lemma_rates_sound(w, granularity);
    assert forall|j: int| 0 <= j < rows_of(w).len() implies 0 <= #[trigger] absolute_claims(
        w,
        granularity,
    )[j] by {
        lemma_row_sums_not_negative(w, rows_of(w)[j]);
        lemma_parts_not_negative(
            rates,
            row_absolute(w, rows_of(w)[j]),
            row_relative(w, rows_of(w)[j]),
        );
    }
    assert forall|j: int| 0 <= j < rows_of(w).len() implies 0 <= #[trigger] relative_claims(
        w,
        granularity,
    )[j] by {
        lemma_row_sums_not_negative(w, rows_of(w)[j]);
        lemma_parts_not_negative(
            rates,
            row_absolute(w, rows_of(w)[j]),
            row_relative(w, rows_of(w)[j]),
        );
    }
    assert forall|j: int| 0 <= j < rows_of(w).len() implies 0 <= #[trigger] remainders(
        w,
        granularity,
    )[j] by {
        lemma_row_sums_not_negative(w, rows_of(w)[j]);
        lemma_parts_not_negative(
            rates,
            row_absolute(w, rows_of(w)[j]),
            row_relative(w, rows_of(w)[j]),
        );
    }
    assert(days_of(w).len() * granularity >= 0) by (nonlinear_arith)
        requires
            days_of(w).len() >= 0,
            granularity > 0,
    ;
}

/// Neither part of a share, nor its remainder, is negative.
pub proof fn lemma_parts_not_negative(rates: Rates, units: int, seconds: int)
    requires
        sound(rates),
        units >= 0,
        seconds >= 0,
    ensures
        0 <= rates.absolute_claim(units),
        0 <= rates.relative_claim(seconds),
        0 <= rates.remainder(units, seconds),
{
    assert(units * rates.granularity >= 0) by (nonlinear_arith)
        requires
            units >= 0,
            rates.granularity > 0,
    ;
    assert(seconds * rates.pool >= 0) by (nonlinear_arith)
        requires
            seconds >= 0,
            rates.pool >= 0,
    ;
    assert(rates.unit() > 0) by (nonlinear_arith)
        requires
            rates.unit() == 1000 * rates.weight,
            rates.weight >= 1,
    ;
    vstd::arithmetic::div_mod::lemma_div_pos_is_pos(units * rates.granularity, 1000);
    vstd::arithmetic::div_mod::lemma_div_pos_is_pos(seconds * rates.pool, rates.unit());
    vstd::arithmetic::div_mod::lemma_mod_bound(units * rates.granularity, 1000);
    vstd::arithmetic::div_mod::lemma_mod_bound(seconds * rates.pool, rates.unit());
    assert((units * rates.granularity % 1000) * rates.weight >= 0) by (nonlinear_arith)
        requires
            units * rates.granularity % 1000 >= 0,
            rates.weight >= 1,
    ;
}

/// The whole slots of all shares of a bucket.
pub open spec fn whole_slots(w: Seq<Item>, granularity: int) -> int {
    total(absolute_claims(w, granularity)) + total(relative_claims(w, granularity))
}

/// What the quotas of a bucket add up to: its budget, or where that is less,
/// the whole slots of all shares and one slot for each positive remainder.
pub proof fn lemma_quotas_total(w: Seq<Item>, granularity: int)
    requires
        granularity > 0,
    ensures
        quotas(w, granularity).len() == rows_of(w).len(),
        total(quotas(w, granularity)) == least(
            budget_of(w, granularity),
            whole_slots(w, granularity) + positives(remainders(w, granularity)),
        ),
        total(quotas(w, granularity)) <= budget_of(w, granularity),
        not_negative(quotas(w, granularity)),
{
    lemma_claims_not_negative(w, granularity);
    lemma_apportioned_total(
        absolute_claims(w, granularity),
        relative_claims(w, granularity),
        remainders(w, granularity),
        budget_of(w, granularity),
    );
}

/// The ledger has lost no slot: what the days have left and what was placed
/// make up `budget`.
pub open spec fn conserving(l: Ledger, budget: int) -> bool {
    &&& not_negative(l.caps)
    &&& total(l.caps) + placed_total(l.log) == budget
}

/// A placement within what the day has left loses no slot.
proof fn lemma_settle_conserving(
    l: Ledger,
    budget: int,
    row: int,
    day: int,
    slot: int,
    amount: int,
)
    requires
        conserving(l, budget),
        0 <= slot < l.caps.len(),
        0 <= amount <= l.caps[slot],
    ensures
        conserving(settle(l, row, day, slot, amount), budget),
        placed_total(settle(l, row, day, slot, amount).log) == placed_total(l.log) + amount,
        settle(l, row, day, slot, amount).caps.len() == l.caps.len(),
{
    let after = settle(l, row, day, slot, amount);
    assert(after.log.drop_last() =~= l.log);
    lemma_total_update(l.caps, slot, -amount);
    assert(after.caps =~= l.caps.update(slot, l.caps[slot] + (-amount)));
    assert forall|t: int| 0 <= t < after.caps.len() implies 0 <= #[trigger] after.caps[t] by {
        assert(0 <= l.caps[t]);
    }
}

/// Drawing on a row's own days loses no slot, and what is placed is no
/// longer due.
proof fn lemma_own_days_conserving(
    l: Ledger,
    budget: int,
    w: Seq<Item>,
    rates: Rates,
    turns: Seq<int>,
    bounded: bool,
)
    requires
        conserving(l, budget),
        l.caps.len() == days_of(w).len(),
        l.due >= 0,
        sound(rates),
        forall|k: int| 0 <= k < turns.len() ==> 0 <= #[trigger] turns[k] < w.len(),
    ensures
        conserving(own_days_pass(l, w, rates, days_of(w), turns, bounded), budget),
        own_days_pass(l, w, rates, days_of(w), turns, bounded).caps.len() == l.caps.len(),
        own_days_pass(l, w, rates, days_of(w), turns, bounded).due >= 0,
        own_days_pass(l, w, rates, days_of(w), turns, bounded).due + placed_total(
            own_days_pass(l, w, rates, days_of(w), turns, bounded).log,
        ) == l.due + placed_total(l.log),
    decreases turns.len(),
{
    if turns.len() > 0 {
        let days = days_of(w);
        lemma_own_days_conserving(l, budget, w, rates, turns.drop_last(), bounded);
        let before = own_days_pass(l, w, rates, days, turns.drop_last(), bounded);
        let item = w[turns.last()];
        let slot = days.index_of(item.day as int);
        if before.due > 0 {
            lemma_day_index(w, turns.last());
            lemma_ideal_not_negative(rates, item.absolute_units(), item.relative_seconds());
            assert(0 <= before.caps[slot]);
            let open = least(before.due, before.caps[slot]);
            let amount = if bounded {
                least(open, rates.ideal(item.absolute_units(), item.relative_seconds()))
            } else {
                open
            };
            lemma_settle_conserving(before, budget, item.row as int, item.day as int, slot, amount);
        }
    }
}

/// Days that are each visited once take the row's slots until it has none or
/// they have no room.
proof fn lemma_any_day_conserving(
    l: Ledger,
    budget: int,
    row: int,
    days: Seq<int>,
    order: Seq<int>,
)
    requires
        conserving(l, budget),
        l.due >= 0,
        forall|k: int| 0 <= k < order.len() ==> 0 <= #[trigger] order[k] < l.caps.len(),
        forall|a: int, b: int| 0 <= a < b < order.len() ==> order[a] != order[b],
    ensures
        conserving(any_day_pass(l, row, days, order), budget),
        any_day_pass(l, row, days, order).caps.len() == l.caps.len(),
        any_day_pass(l, row, days, order).due == l.due - least(l.due, total(picked(l.caps, order))),
        any_day_pass(l, row, days, order).due + placed_total(any_day_pass(l, row, days, order).log)
            == l.due + placed_total(l.log),
        forall|slot: int|
            0 <= slot < l.caps.len() && !order.contains(slot) ==> #[trigger] any_day_pass(
                l,
                row,
                days,
                order,
            ).caps[slot] == l.caps[slot],
    decreases order.len(),
{
    let along = picked(l.caps, order);
    if order.len() > 0 {
        let front = order.drop_last();
        lemma_any_day_conserving(l, budget, row, days, front);
        let before = any_day_pass(l, row, days, front);
        let slot = order.last();
        assert(slot == order[order.len() - 1]);
        assert(!front.contains(slot)) by {
            if front.contains(slot) {
                let a = choose|a: int| 0 <= a < front.len() && front[a] == slot;
                assert(order[a] != order[order.len() - 1]);
            }
        }
        assert(before.caps[slot] == l.caps[slot]);
        assert(along.drop_last() =~= picked(l.caps, front));
        assert(along.last() == l.caps[slot]);
        assert(not_negative(picked(l.caps, front))) by {
            assert forall|k: int| 0 <= k < front.len() implies 0 <= #[trigger] picked(
                l.caps,
                front,
            )[k] by {
                assert(0 <= l.caps[front[k]]);
            }
        }
        lemma_total_not_negative(picked(l.caps, front));
        assert(0 <= l.caps[slot]);
        let after = any_day_pass(l, row, days, order);
        if before.due > 0 {
            let amount = least(before.due, before.caps[slot]);
            lemma_settle_conserving(before, budget, row, days[slot], slot, amount);
        }
        assert forall|other: int|
            0 <= other < l.caps.len() && !order.contains(other) implies #[trigger] after.caps[other]
            == l.caps[other] by {
            assert(other != slot);
            if front.contains(other) {
                let a = choose|a: int| 0 <= a < front.len() && front[a] == other;
                assert(order[a] == other);
            }
            assert(before.caps[other] == l.caps[other]);
        }
    } else {
        assert(along =~= Seq::<int>::empty());
    }
}

/// A row whose quota is no more than the days have left places all of it.
proof fn lemma_place_row_conserving(
    l: Ledger,
    budget: int,
    w: Seq<Item>,
    rates: Rates,
    row: int,
    quota: int,
)
    requires
        conserving(l, budget),
        l.caps.len() == days_of(w).len(),
        0 <= quota <= total(l.caps),
        sound(rates),
    ensures
        conserving(place_row(l, w, rates, days_of(w), row, quota), budget),
        place_row(l, w, rates, days_of(w), row, quota).caps.len() == l.caps.len(),
        placed_total(place_row(l, w, rates, days_of(w), row, quota).log) == placed_total(l.log)
            + quota,
{
    let days = days_of(w);
    lemma_members(w, row);
    let start = owing(l, quota);
    assert(conserving(start, budget));
    lemma_own_days_conserving(start, budget, w, rates, members(w, row), true);
    let first = own_days_pass(start, w, rates, days, members(w, row), true);
    lemma_own_days_conserving(first, budget, w, rates, members(w, row), false);
    let second = own_days_pass(first, w, rates, days, members(w, row), false);
    lemma_stable_order(second.caps);
    lemma_stable_order_total(second.caps, second.caps);
    lemma_any_day_conserving(second, budget, row, days, stable_order(second.caps));
}

/// Rows whose quotas together are no more than the days have left place all
/// of them.
proof fn lemma_place_rows_conserving(
    l: Ledger,
    budget: int,
    w: Seq<Item>,
    rates: Rates,
    quota: Seq<int>,
    visit: Seq<int>,
)
    requires
        conserving(l, budget),
        l.caps.len() == days_of(w).len(),
        not_negative(quota),
        sound(rates),
        forall|k: int| 0 <= k < visit.len() ==> 0 <= #[trigger] visit[k] < quota.len(),
        total(picked(quota, visit)) <= total(l.caps),
    ensures
        conserving(place_rows(l, w, rates, rows_of(w), days_of(w), quota, visit), budget),
        place_rows(l, w, rates, rows_of(w), days_of(w), quota, visit).caps.len() == l.caps.len(),
        placed_total(place_rows(l, w, rates, rows_of(w), days_of(w), quota, visit).log)
            == placed_total(l.log) + total(picked(quota, visit)),
    decreases visit.len(),
{
    let along = picked(quota, visit);
    if visit.len() > 0 {
        let front = visit.drop_last();
        assert(along.drop_last() =~= picked(quota, front));
        assert(along.last() == quota[visit.last()]);
        assert(visit.last() == visit[visit.len() - 1]);
        assert(0 <= quota[visit.last()]);
        lemma_place_rows_conserving(l, budget, w, rates, quota, front);
        let before = place_rows(l, w, rates, rows_of(w), days_of(w), quota, front);
        lemma_place_row_conserving(
            before,
            budget,
            w,
            rates,
            rows_of(w)[visit.last()],
            quota[visit.last()],
        );
    } else {
        assert(along =~= Seq::<int>::empty());
    }
}

/// The ledger of a bucket after all its rows have placed their quotas.
pub open spec fn closing(items: Seq<Item>, granularity: int) -> Ledger {
    closing_ledger(
        working(items),
        rates_of(working(items), granularity),
        quotas(working(items), granularity),
    )
}

/// Every quota is placed in full: the placements of a bucket add up to its
/// quotas, and what its days have left to what the quotas leave of the
/// budget.
pub proof fn lemma_all_quota_placed(items: Seq<Item>, granularity: int)
    requires
        granularity > 0,
    ensures
        placements(items, granularity) == closing(items, granularity).log,
        placed_total(placements(items, granularity)) == total(
            quotas(working(items), granularity),
        ),
        closing(items, granularity).caps.len() == days_of(working(items)).len(),
        not_negative(closing(items, granularity).caps),
        total(closing(items, granularity).caps) == budget_of(working(items), granularity) - total(
            quotas(working(items), granularity),
        ),
{
    let w = working(items);
    let days = days_of(w);
    let quota = quotas(w, granularity);
    let budget = budget_of(w, granularity);
    let start = opening(days, granularity);
    lemma_rates_sound(w, granularity);
    lemma_quotas_total(w, granularity);
    lemma_total_constant(start.caps, granularity);
    assert(days.len() * granularity == granularity * days.len()) by (nonlinear_arith);
    assert(conserving(start, budget));
    lemma_stable_order(quota);
    lemma_stable_order_total(quota, quota);
    lemma_place_rows_conserving(
        start,
        budget,
        w,
        rates_of(w, granularity),
        quota,
        stable_order(quota),
    );
}

/// The share of a row before rounding, as a numerator over the unit of the
/// rates.
pub open spec fn share(rates: Rates, units: int, seconds: int) -> int {
    units * rates.granularity * rates.weight + seconds * rates.pool
}

/// For each row of a bucket, its share before rounding.
pub open spec fn shares(w: Seq<Item>, granularity: int) -> Seq<int> {
    Seq::new(
        rows_of(w).len(),
        |j: int|
            share(
                rates_of(w, granularity),
                row_absolute(w, rows_of(w)[j]),
                row_relative(w, rows_of(w)[j]),
            ),
    )
}

/// The demand of a bucket: the shares of all rows before rounding, added up,
/// as a numerator over the unit of the rates.
pub open spec fn demand(w: Seq<Item>, granularity: int) -> int {
    total(shares(w, granularity))
}

/// Whether the demand of a bucket is no less than its budget.
pub open spec fn demand_meets_budget(w: Seq<Item>, granularity: int) -> bool {
    demand(w, granularity) >= budget_of(w, granularity) * rates_of(w, granularity).unit()
}

/// Whether the whole slots of all shares and one slot for each positive
/// remainder make up the budget of a bucket.
pub open spec fn rounding_meets_budget(w: Seq<Item>, granularity: int) -> bool {
    whole_slots(w, granularity) + positives(remainders(w, granularity)) >= budget_of(
        w,
        granularity,
    )
}

/// A share is its whole slots and its remainder.
pub proof fn lemma_share_parts(rates: Rates, units: int, seconds: int)
    requires
        sound(rates),
    ensures
        share(rates, units, seconds) == (rates.absolute_claim(units) + rates.relative_claim(
            seconds,
        )) * rates.unit() + rates.remainder(units, seconds),
{
    let by_override = units * rates.granularity;
    let by_seconds = seconds * rates.pool;
    let unit = rates.unit();
    vstd::arithmetic::div_mod::lemma_fundamental_div_mod(by_override, 1000);
    vstd::arithmetic::div_mod::lemma_fundamental_div_mod(by_seconds, unit);
    assert(by_override * rates.weight == (by_override / 1000) * unit + (by_override % 1000)
        * rates.weight) by (nonlinear_arith)
        requires
            by_override == 1000 * (by_override / 1000) + by_override % 1000,
            unit == 1000 * rates.weight,
    ;
    assert((by_override / 1000 + by_seconds / unit) * unit == (by_override / 1000) * unit + unit
        * (by_seconds / unit)) by (nonlinear_arith);
}

/// Sums of values that are each a multiple of `unit` and a rest.
proof fn lemma_total_parts(
    all: Seq<int>,
    first: Seq<int>,
    second: Seq<int>,
    rest: Seq<int>,
    unit: int,
)
    requires
        all.len() == first.len(),
        all.len() == second.len(),
        all.len() == rest.len(),
        forall|j: int|
            0 <= j < all.len() ==> #[trigger] all[j] == (first[j] + second[j]) * unit + rest[j],
    ensures
        total(all) == (total(first) + total(second)) * unit + total(rest),
    decreases all.len(),
{
    if all.len() > 0 {
        let n = all.len() as int;
        assert forall|j: int| 0 <= j < n - 1 implies #[trigger] all.drop_last()[j] == (
        first.drop_last()[j] + second.drop_last()[j]) * unit + rest.drop_last()[j] by {
            assert(all[j] == (first[j] + second[j]) * unit + rest[j]);
        }
        lemma_total_parts(
            all.drop_last(),
            first.drop_last(),
            second.drop_last(),
            rest.drop_last(),
            unit,
        );
        assert(all[n - 1] == (first[n - 1] + second[n - 1]) * unit + rest[n - 1]);
        assert((total(first.drop_last()) + first[n - 1] + total(second.drop_last()) + second[n
            - 1]) * unit == (total(first.drop_last()) + total(second.drop_last())) * unit + (
        first[n - 1] + second[n - 1]) * unit) by (nonlinear_arith);
    } else {
        assert((0 + 0) * unit == 0) by (nonlinear_arith);
    }
}

/// The demand of a bucket is the whole slots of all shares and all remainders.
pub proof fn lemma_demand_parts(w: Seq<Item>, granularity: int)
    requires
        granularity > 0,
    ensures
        demand(w, granularity) == whole_slots(w, granularity) * rates_of(w, granularity).unit()
            + total(remainders(w, granularity)),
{
    let rates = rates_of(w, granularity);
    lemma_rates_sound(w, granularity);
    let all = shares(w, granularity);
    assert forall|j: int| 0 <= j < all.len() implies #[trigger] all[j] == (absolute_claims(
        w,
        granularity,
    )[j] + relative_claims(w, granularity)[j]) * rates.unit() + remainders(w, granularity)[j] by {
        lemma_share_parts(rates, row_absolute(w, rows_of(w)[j]), row_relative(w, rows_of(w)[j]));
    }
    lemma_total_parts(
        all,
        absolute_claims(w, granularity),
        relative_claims(w, granularity),
        remainders(w, granularity),
        rates.unit(),
    );
}

/// Remainders of no more than one slot each add up to no more than one slot
/// for each positive one.
pub proof fn lemma_remainders_within_flags(remainder: Seq<int>, unit: int)
    requires
        unit > 0,
        forall|j: int| 0 <= j < remainder.len() ==> #[trigger] remainder[j] <= unit,
    ensures
        total(remainder) <= positives(remainder) * unit,
    decreases remainder.len(),
{
    if remainder.len() > 0 {
        let n = remainder.len() as int;
        let front = remainder.drop_last();
        assert forall|j: int| 0 <= j < front.len() implies #[trigger] front[j] <= unit by {
            assert(remainder[j] <= unit);
        }
        lemma_remainders_within_flags(front, unit);
        assert(flags(remainder).drop_last() =~= flags(front));
        assert(remainder[n - 1] <= unit);
        let flag = flags(remainder)[n - 1];
        assert(remainder[n - 1] <= flag * unit) by (nonlinear_arith)
            requires
                remainder[n - 1] <= unit,
                unit > 0,
                flag == if remainder[n - 1] > 0 {
                    1int
                } else {
                    0int
                },
        ;
        assert((positives(front) + flag) * unit == positives(front) * unit + flag * unit)
            by (nonlinear_arith);
    } else {
        assert(flags(remainder) =~= Seq::<int>::empty());
        assert(0 * unit == 0);
    }
}

/// Where the demand of a bucket is no less than its budget and no row's
/// remainder is more than one slot, the rounding makes up the budget.
pub proof fn lemma_rounding_meets_budget(w: Seq<Item>, granularity: int)
    requires
        granularity > 0,
        demand_meets_budget(w, granularity),
        forall|j: int|
            0 <= j < rows_of(w).len() ==> #[trigger] remainders(w, granularity)[j] <= rates_of(
                w,
                granularity,
            ).unit(),
    ensures
        rounding_meets_budget(w, granularity),
{
    let rates = rates_of(w, granularity);
    let unit = rates.unit();
    lemma_rates_sound(w, granularity);
    lemma_demand_parts(w, granularity);
    lemma_remainders_within_flags(remainders(w, granularity), unit);
    let whole = whole_slots(w, granularity);
    let extra = positives(remainders(w, granularity));
    let budget = budget_of(w, granularity);
    assert(whole + extra >= budget) by (nonlinear_arith)
        requires
            whole * unit + extra * unit >= budget * unit,
            unit > 0,
    ;
}

/// The closing ledger of a bucket is balanced.
pub proof fn lemma_closing_balanced(items: Seq<Item>, granularity: int)
    requires
        granularity > 0,
    ensures
        balanced(
            closing(items, granularity),
            rows_of(working(items)),
            days_of(working(items)),
            granularity,
        ),
{
    let w = working(items);
    lemma_rates_sound(w, granularity);
    lemma_quotas_len(w, granularity);
    lemma_allocator_within_capacity(w, rates_of(w, granularity), quotas(w, granularity));
}

/// Capacity conservation. Where the demand of a bucket is no less than its
/// budget, and the rounding makes up the budget, every workday of the bucket
/// is filled: the placements on it add up to exactly the day's slots.
pub proof fn lemma_capacity_conservation(items: Seq<Item>, granularity: int)
    requires
        granularity > 0,
        demand_meets_budget(working(items), granularity),
        rounding_meets_budget(working(items), granularity),
    ensures
        forall|day: int|
            days_of(working(items)).contains(day) ==> #[trigger] placed_on(
                placements(items, granularity),
                day,
            ) == granularity,
{
    let w = working(items);
    let days = days_of(w);
    let end = closing(items, granularity);
    lemma_quotas_total(w, granularity);
    lemma_all_quota_placed(items, granularity);
    lemma_closing_balanced(items, granularity);
    lemma_total_nothing(end.caps);
    assert forall|day: int| days.contains(day) implies #[trigger] placed_on(
        placements(items, granularity),
        day,
    ) == granularity by {
        let t = choose|t: int| 0 <= t < days.len() && days[t] == day;
        assert(end.caps[t] == 0);
    }
}

/// Where the rounding does not make up the budget, some workday is left with
/// room: the requirement of `lemma_capacity_conservation` leaves out no bucket
/// on which its claim holds.
pub proof fn lemma_rounding_short(items: Seq<Item>, granularity: int)
    requires
        granularity > 0,
        !rounding_meets_budget(working(items), granularity),
    ensures
        exists|day: int|
            days_of(working(items)).contains(day) && #[trigger] placed_on(
                placements(items, granularity),
                day,
            ) < granularity,
{
    let w = working(items);
    let days = days_of(w);
    let end = closing(items, granularity);
    lemma_quotas_total(w, granularity);
    lemma_all_quota_placed(items, granularity);
    lemma_closing_balanced(items, granularity);
    if forall|t: int| 0 <= t < end.caps.len() ==> end.caps[t] == 0 {
        lemma_total_zeros(end.caps);
        assert(false);
    }
    let t = choose|t: int| 0 <= t < end.caps.len() && end.caps[t] != 0;
    assert(0 <= end.caps[t]);
    assert(days.contains(days[t]));
    assert(placed_on(placements(items, granularity), days[t]) < granularity);
}

/// For each row of a bucket, the sum of its overrides.
pub open spec fn row_absolutes(w: Seq<Item>) -> Seq<int> {
    Seq::new(rows_of(w).len(), |j: int| row_absolute(w, rows_of(w)[j]))
}

/// For each row of a bucket, the sum of its relative seconds.
pub open spec fn row_relatives(w: Seq<Item>) -> Seq<int> {
    Seq::new(rows_of(w).len(), |j: int| row_relative(w, rows_of(w)[j]))
}

/// A row without items sums to nothing.
proof fn lemma_row_absent(w: Seq<Item>, row: int)
    requires
        forall|i: int| 0 <= i < w.len() ==> (#[trigger] w[i]).row != row,
    ensures
        row_absolute(w, row) == 0,
        row_relative(w, row) == 0,
    decreases w.len(),
{
    if w.len() > 0 {
        assert forall|i: int| 0 <= i < w.drop_last().len() implies (#[trigger] w.drop_last()[i]).row
            != row by {
            assert(w[i].row != row);
        }
        lemma_row_absent(w.drop_last(), row);
        assert(w.last() == w[w.len() - 1]);
    }
}

/// The sums of the rows make up the sums of the bucket.
pub proof fn lemma_rows_make_up_totals(w: Seq<Item>)
    ensures
        total(row_absolutes(w)) == total_absolute(w),
        total(row_relatives(w)) == total_relative(w),
    decreases w.len(),
{
    if w.len() == 0 {
        assert(row_absolutes(w) =~= Seq::<int>::empty());
        assert(row_relatives(w) =~= Seq::<int>::empty());
    } else {
        let front = w.drop_last();
        let item = w.last();
        let row = item.row as int;
        lemma_rows_make_up_totals(front);
        lemma_distinct(row_ids(front));
        assert(row_ids(w).drop_last() =~= row_ids(front));
        assert(row_ids(w).last() == row);
        let before = rows_of(front);
        let rows = rows_of(w);
        if before.contains(row) {
            let at = choose|at: int| 0 <= at < before.len() && before[at] == row;
            assert forall|j: int| 0 <= j < rows.len() && j != at implies rows[j] != row by {
                assert(before[j] != before[at]);
            }
            assert(row_absolutes(w) =~= row_absolutes(front).update(
                at,
                row_absolutes(front)[at] + item.absolute_units(),
            ));
            assert(row_relatives(w) =~= row_relatives(front).update(
                at,
                row_relatives(front)[at] + item.relative_seconds(),
            ));
            lemma_total_update(row_absolutes(front), at, item.absolute_units());
            lemma_total_update(row_relatives(front), at, item.relative_seconds());
        } else {
            assert forall|i: int| 0 <= i < front.len() implies (#[trigger] front[i]).row != row by {
                assert(row_ids(front)[i] == front[i].row as int);
                assert(before.contains(row_ids(front)[i]));
            }
            lemma_row_absent(front, row);
            assert forall|j: int| 0 <= j < before.len() implies before[j] != row by {
                assert(before.contains(before[j]));
            }
            assert(row_absolutes(w) =~= row_absolutes(front).push(item.absolute_units()));
            assert(row_relatives(w) =~= row_relatives(front).push(item.relative_seconds()));
            assert(row_absolutes(w).drop_last() =~= row_absolutes(front));
            assert(row_relatives(w).drop_last() =~= row_relatives(front));
        }
    }
}

/// Sums of values that are each made of two others, each times a factor.
proof fn lemma_total_combined(
    all: Seq<int>,
    first: Seq<int>,
    second: Seq<int>,
    first_factor: int,
    second_factor: int,
)
    requires
        all.len() == first.len(),
        all.len() == second.len(),
        forall|j: int|
            0 <= j < all.len() ==> #[trigger] all[j] == first[j] * first_factor + second[j]
                * second_factor,
    ensures
        total(all) == total(first) * first_factor + total(second) * second_factor,
    decreases all.len(),
{
    if all.len() > 0 {
        let n = all.len() as int;
        assert forall|j: int| 0 <= j < n - 1 implies #[trigger] all.drop_last()[j]
            == first.drop_last()[j] * first_factor + second.drop_last()[j] * second_factor by {
            assert(all[j] == first[j] * first_factor + second[j] * second_factor);
        }
        lemma_total_combined(
            all.drop_last(),
            first.drop_last(),
            second.drop_last(),
            first_factor,
            second_factor,
        );
        assert(all[n - 1] == first[n - 1] * first_factor + second[n - 1] * second_factor);
        assert((total(first.drop_last()) + first[n - 1]) * first_factor == total(
            first.drop_last(),
        ) * first_factor + first[n - 1] * first_factor) by (nonlinear_arith);
        assert((total(second.drop_last()) + second[n - 1]) * second_factor == total(
            second.drop_last(),
        ) * second_factor + second[n - 1] * second_factor) by (nonlinear_arith);
    } else {
        assert(0 * first_factor + 0 * second_factor == 0) by (nonlinear_arith);
    }
}

/// The demand of a bucket, from its sums: the overrides count as they are,
/// the seconds share the pool.
pub proof fn lemma_demand_of_totals(w: Seq<Item>, granularity: int)
    ensures
        demand(w, granularity) == total_absolute(w) * (granularity * rates_of(
            w,
            granularity,
        ).weight) + total_relative(w) * rates_of(w, granularity).pool,
{
    let rates = rates_of(w, granularity);
    lemma_rows_make_up_totals(w);
    let all = shares(w, granularity);
    assert forall|j: int| 0 <= j < all.len() implies #[trigger] all[j] == row_absolutes(w)[j] * (
    granularity * rates.weight) + row_relatives(w)[j] * rates.pool by {
        let units = row_absolute(w, rows_of(w)[j]);
        assert(units * granularity * rates.weight == units * (granularity * rates.weight))
            by (nonlinear_arith);
    }
    lemma_total_combined(
        all,
        row_absolutes(w),
        row_relatives(w),
        granularity * rates.weight,
        rates.pool,
    );
}

/// When the demand of a bucket is no less than its budget: when an item is
/// weighed by its seconds, or the overrides alone make up the workdays.
pub proof fn lemma_demand_meets_budget(w: Seq<Item>, granularity: int)
    requires
        granularity > 0,
    ensures
        demand_meets_budget(w, granularity) <==> total_relative(w) > 0 || total_absolute(w)
            >= 1000 * days_of(w).len(),
{
    let rates = rates_of(w, granularity);
    let days = days_of(w).len() as int;
    let claimed = total_absolute(w);
    let seconds = total_relative(w);
    lemma_demand_of_totals(w, granularity);
    lemma_totals_not_negative(w);
    if seconds > 0 {
        if claimed < 1000 * days {
            assert(claimed * (granularity * seconds) + seconds * ((days * 1000 - claimed)
                * granularity) == (days * granularity) * (1000 * seconds)) by (nonlinear_arith);
        } else {
            assert(claimed * (granularity * seconds) + seconds * 0 >= (days * granularity) * (1000
                * seconds)) by (nonlinear_arith)
                requires
                    claimed >= 1000 * days,
                    granularity > 0,
                    seconds > 0,
                    days >= 0,
            ;
        }
    } else {
        assert(seconds == 0);
        assert(0 * rates.pool == 0);
        assert(claimed * (granularity * 1) == claimed * granularity) by (nonlinear_arith);
        assert((days * granularity) * (1000 * 1) == (1000 * days) * granularity)
            by (nonlinear_arith);
        if claimed >= 1000 * days {
            assert(claimed * granularity >= (1000 * days) * granularity) by (nonlinear_arith)
                requires
                    claimed >= 1000 * days,
                    granularity > 0,
            ;
        } else {
            assert(claimed * granularity < (1000 * days) * granularity) by (nonlinear_arith)
                requires
                    claimed < 1000 * days,
                    granularity > 0,
            ;
        }
    }
}

/// The sums of a bucket are not negative.
pub proof fn lemma_totals_not_negative(w: Seq<Item>)
    ensures
        0 <= total_absolute(w),
        0 <= total_relative(w),
    decreases w.len(),
{
    if w.len() > 0 {
        lemma_totals_not_negative(w.drop_last());
    }
}

/// Where of every row one part of the share is whole slots, no remainder is
/// more than one slot.
pub proof fn lemma_single_remainders(w: Seq<Item>, granularity: int)
    requires
        granularity > 0,
        forall|j: int|
            0 <= j < rows_of(w).len() ==> (#[trigger] row_absolutes(w)[j] * granularity) % 1000 == 0
                || (row_relatives(w)[j] * rates_of(w, granularity).pool) % rates_of(
                w,
                granularity,
            ).unit() == 0,
    ensures
        forall|j: int|
            0 <= j < rows_of(w).len() ==> #[trigger] remainders(w, granularity)[j] <= rates_of(
                w,
                granularity,
            ).unit(),
{
    let rates = rates_of(w, granularity);
    lemma_rates_sound(w, granularity);
    assert forall|j: int| 0 <= j < rows_of(w).len() implies #[trigger] remainders(
        w,
        granularity,
    )[j] <= rates.unit() by {
        let units = row_absolute(w, rows_of(w)[j]);
        let seconds = row_relative(w, rows_of(w)[j]);
        assert(row_absolutes(w)[j] == units && row_relatives(w)[j] == seconds);
        assert(row_absolutes(w)[j] * granularity == units * granularity);
        let rest = units * granularity % 1000;
        vstd::arithmetic::div_mod::lemma_mod_bound(units * granularity, 1000);
        assert(rates.unit() > 0) by (nonlinear_arith)
            requires
                rates.unit() == 1000 * rates.weight,
                rates.weight >= 1,
        ;
        vstd::arithmetic::div_mod::lemma_mod_bound(seconds * rates.pool, rates.unit());
        assert(rest * rates.weight <= rates.unit()) by (nonlinear_arith)
            requires
                0 <= rest < 1000,
                rates.weight >= 1,
                rates.unit() == 1000 * rates.weight,
        ;
        if rest == 0 {
            assert(rest * rates.weight == 0);
        }
    }
}

/// Capacity conservation for days without overrides. Where no working item of
/// a bucket has an override and one of them lasts, every workday of the bucket
/// is filled: the placements on it add up to exactly the day's slots.
pub proof fn lemma_days_without_overrides_are_filled(items: Seq<Item>, granularity: int)
    requires
        granularity > 0,
        total_absolute(working(items)) == 0,
        total_relative(working(items)) > 0,
    ensures
        forall|day: int|
            days_of(working(items)).contains(day) ==> #[trigger] placed_on(
                placements(items, granularity),
                day,
            ) == granularity,
{
    let w = working(items);
    lemma_demand_meets_budget(w, granularity);
    lemma_rows_make_up_totals(w);
    assert(not_negative(row_absolutes(w))) by {
        assert forall|j: int| 0 <= j < row_absolutes(w).len() implies 0 <= #[trigger] row_absolutes(
            w,
        )[j] by {
            lemma_row_sums_not_negative(w, rows_of(w)[j]);
        }
    }
    lemma_total_nothing(row_absolutes(w));
    assert forall|j: int| 0 <= j < rows_of(w).len() implies (#[trigger] row_absolutes(w)[j]
        * granularity) % 1000 == 0 by {
        assert(row_absolutes(w)[j] == 0);
        assert(0 * granularity == 0);
    }
    lemma_single_remainders(w, granularity);
    lemma_rounding_meets_budget(w, granularity);
    lemma_capacity_conservation(items, granularity);
}

} // verus!
