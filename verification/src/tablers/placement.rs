//! The day placement allocator: puts each row's quota on days of the bucket.
//!
//! Rows are served by ascending quota. A row first fills the days of its own
//! items, each up to that item's own share; then the same days without that
//! bound; then any day of the bucket, the fullest first. A placement never
//! exceeds what the day has left.

use crate::numbers::{least, slots};
use crate::ordering::{key_values, positions, sort_indices, stable_order};
use crate::tablers::bucket::{
    all_valid, days_of, rows_of, survey, working, Item, Survey, MAX_ITEMS, MAX_SECONDS,
};
use crate::tablers::quota::{calculate_quotas, quotas, rates_of, scale_of, Rates, Scale};
use vstd::prelude::*;

verus! {

/// Slots of one row put on one day.
#[derive(Clone, Copy, Debug)]
pub struct Placement {
    pub row: usize,
    pub day: i64,
    pub amount: u8,
}

/// A placement over the integers.
pub struct Placed {
    pub row: int,
    pub day: int,
    pub amount: int,
}

impl View for Placement {
    type V = Placed;

    open spec fn view(&self) -> Placed {
        Placed { row: self.row as int, day: self.day as int, amount: self.amount as int }
    }
}

/// The placements held by a vector, in its order.
pub open spec fn placed(log: Seq<Placement>) -> Seq<Placed> {
    log.map_values(|p: Placement| p@)
}

/// The state of the allocator: the placements made, what each day of the
/// bucket has left, and what the row being served has yet to place.
pub struct Ledger {
    pub log: Seq<Placed>,
    pub caps: Seq<int>,
    pub due: int,
}

/// The ledger after `amount` slots of `row` went to the day at `slot`.
pub open spec fn settle(l: Ledger, row: int, day: int, slot: int, amount: int) -> Ledger {
    Ledger {
        log: l.log.push(Placed { row, day, amount }),
        caps: l.caps.update(slot, l.caps[slot] - amount),
        due: l.due - amount,
    }
}

/// The positions of the items of `row`, ascending.
pub open spec fn members(w: Seq<Item>, row: int) -> Seq<int>
    decreases w.len(),
{
    if w.len() == 0 {
        Seq::empty()
    } else if w.last().row == row {
        members(w.drop_last(), row).push(w.len() - 1)
    } else {
        members(w.drop_last(), row)
    }
}

/// The ledger after the row's items, in their order, have each drawn on their
/// own day: what the row has yet to place, no more than the day has left and,
/// where `bounded`, no more than the item's own share. Once the row has
/// nothing to place, nothing more is recorded.
pub open spec fn own_days_pass(
    l: Ledger,
    w: Seq<Item>,
    rates: Rates,
    days: Seq<int>,
    members: Seq<int>,
    bounded: bool,
) -> Ledger
    decreases members.len(),
{
    if members.len() == 0 {
        l
    } else {
        let before = own_days_pass(l, w, rates, days, members.drop_last(), bounded);
        let item = w[members.last()];
        let slot = days.index_of(item.day as int);
        if before.due <= 0 {
            before
        } else {
            let open = least(before.due, before.caps[slot]);
            let amount = if bounded {
                least(open, rates.ideal(item.absolute_units(), item.relative_seconds()))
            } else {
                open
            };
            settle(before, item.row as int, item.day as int, slot, amount)
        }
    }
}

/// The ledger after the row has drawn on the days at `order`, in that order:
/// each time what it has yet to place, no more than the day has left. Once the
/// row has nothing to place, nothing more is recorded.
pub open spec fn any_day_pass(l: Ledger, row: int, days: Seq<int>, order: Seq<int>) -> Ledger
    decreases order.len(),
{
    if order.len() == 0 {
        l
    } else {
        let before = any_day_pass(l, row, days, order.drop_last());
        let slot = order.last();
        if before.due <= 0 {
            before
        } else {
            settle(before, row, days[slot], slot, least(before.due, before.caps[slot]))
        }
    }
}

/// The ledger `l` with `due` yet to place.
pub open spec fn owing(l: Ledger, due: int) -> Ledger {
    Ledger { log: l.log, caps: l.caps, due }
}

/// The ledger after `row` has placed its quota: on its own days within each
/// item's share, on its own days without that bound, then on any day, by
/// ascending remaining capacity and, where equal, in the order of the days.
pub open spec fn place_row(
    l: Ledger,
    w: Seq<Item>,
    rates: Rates,
    days: Seq<int>,
    row: int,
    quota: int,
) -> Ledger {
    let first = own_days_pass(owing(l, quota), w, rates, days, members(w, row), true);
    let second = own_days_pass(first, w, rates, days, members(w, row), false);
    any_day_pass(second, row, days, stable_order(second.caps))
}

/// The ledger after the rows at `visit` have placed their quotas, in that
/// order.
pub open spec fn place_rows(
    l: Ledger,
    w: Seq<Item>,
    rates: Rates,
    rows: Seq<int>,
    days: Seq<int>,
    quota: Seq<int>,
    visit: Seq<int>,
) -> Ledger
    decreases visit.len(),
{
    if visit.len() == 0 {
        l
    } else {
        let before = place_rows(l, w, rates, rows, days, quota, visit.drop_last());
        place_row(before, w, rates, days, rows[visit.last()], quota[visit.last()])
    }
}

/// The ledger of a bucket before any placement: every day has `granularity`
/// slots.
pub open spec fn opening(days: Seq<int>, granularity: int) -> Ledger {
    Ledger { log: Seq::empty(), caps: Seq::new(days.len(), |t: int| granularity), due: 0 }
}

/// The ledger after the rows of the working items `w` have placed the quotas
/// given: the rows are served by ascending quota, rows with equal quotas in
/// the order of their first appearance.
pub open spec fn closing_ledger(w: Seq<Item>, rates: Rates, quota: Seq<int>) -> Ledger {
    place_rows(
        opening(days_of(w), rates.granularity),
        w,
        rates,
        rows_of(w),
        days_of(w),
        quota,
        stable_order(quota),
    )
}

/// The placements of the quotas given, in the order in which they are made.
pub open spec fn placed_quotas(w: Seq<Item>, rates: Rates, quota: Seq<int>) -> Seq<Placed> {
    closing_ledger(w, rates, quota).log
}

/// The placements of a bucket: those of the quotas of its working items.
pub open spec fn placements(items: Seq<Item>, granularity: int) -> Seq<Placed> {
    placed_quotas(
        working(items),
        rates_of(working(items), granularity),
        quotas(working(items), granularity),
    )
}

/// The ledger that the machine holds.
pub open spec fn ledger_of(log: Seq<Placement>, caps: Seq<u8>, due: u64) -> Ledger {
    Ledger { log: placed(log), caps: caps.map_values(|c: u8| c as int), due: due as int }
}

/// Once the row has nothing to place, the rest of its items change nothing.
proof fn lemma_own_days_spent(
    l: Ledger,
    w: Seq<Item>,
    rates: Rates,
    days: Seq<int>,
    members: Seq<int>,
    bounded: bool,
    k: int,
)
    requires
        0 <= k <= members.len(),
        k < members.len() ==> own_days_pass(l, w, rates, days, members.take(k), bounded).due <= 0,
    ensures
        own_days_pass(l, w, rates, days, members, bounded) == own_days_pass(
            l,
            w,
            rates,
            days,
            members.take(k),
            bounded,
        ),
    decreases members.len() - k,
{
    if k < members.len() {
        assert(members.take(k + 1).drop_last() =~= members.take(k));
        lemma_own_days_spent(l, w, rates, days, members, bounded, k + 1);
    } else {
        assert(members.take(k) =~= members);
    }
}

/// Once the row has nothing to place, the rest of the days change nothing.
proof fn lemma_any_day_spent(l: Ledger, row: int, days: Seq<int>, order: Seq<int>, k: int)
    requires
        0 <= k <= order.len(),
        k < order.len() ==> any_day_pass(l, row, days, order.take(k)).due <= 0,
    ensures
        any_day_pass(l, row, days, order) == any_day_pass(l, row, days, order.take(k)),
    decreases order.len() - k,
{
    if k < order.len() {
        assert(order.take(k + 1).drop_last() =~= order.take(k));
        lemma_any_day_spent(l, row, days, order, k + 1);
    } else {
        assert(order.take(k) =~= order);
    }
}

/// Lists, for each row, the positions of its items.
fn group_members(survey: &Survey) -> (lists: Vec<Vec<usize>>)
    requires
        survey.wf(),
    ensures
        lists@.len() == survey.rows@.len(),
        forall|j: int|
            0 <= j < lists@.len() ==> positions((#[trigger] lists@[j])@) == members(
                survey.items@,
                survey.rows@[j] as int,
            ),
        forall|j: int, k: int|
            0 <= j < lists@.len() && 0 <= k < lists@[j]@.len() ==> (#[trigger] lists@[j]@[k])
                < survey.items@.len(),
{
    let count = survey.rows.len();
    let n = survey.items.len();
    let ghost w = survey.items@;
    let mut lists: Vec<Vec<usize>> = Vec::new();
    let mut j: usize = 0;
    while j < count
        invariant
            0 <= j <= count,
            lists@.len() == j,
            forall|k: int| 0 <= k < j ==> (#[trigger] lists@[k])@.len() == 0,
        decreases count - j,
    {
        lists.push(Vec::new());
        j += 1;
    }
    let mut i: usize = 0;
    while i < n
        invariant
            survey.wf(),
            w == survey.items@,
            n == w.len(),
            count == survey.rows@.len(),
            lists@.len() == count,
            0 <= i <= n,
            forall|j: int|
                0 <= j < count ==> positions((#[trigger] lists@[j])@) == members(
                    w.take(i as int),
                    survey.rows@[j] as int,
                ),
            forall|j: int, k: int|
                0 <= j < count && 0 <= k < lists@[j]@.len() ==> (#[trigger] lists@[j]@[k]) < i,
        decreases n - i,
    {
        let slot = survey.row_of[i];
        let ghost before = lists@;
        proof {
            assert(w.take(i as int + 1).drop_last() =~= w.take(i as int));
            assert(w.take(i as int + 1).last() == w[i as int]);
            assert forall|j: int| 0 <= j < count && j != slot implies survey.rows@[j] as int
                != w[i as int].row as int by {
                assert(key_values(survey.rows@)[j] != key_values(survey.rows@)[slot as int]);
            }
        }
        lists[slot].push(i);
        proof {
            assert forall|j: int| 0 <= j < count implies positions((#[trigger] lists@[j])@)
                == members(w.take(i as int + 1), survey.rows@[j] as int) by {
                if j == slot {
                    assert(positions(lists@[j]@) =~= positions(before[j]@).push(i as int));
                } else {
                    assert(lists@[j] == before[j]);
                }
            }
            assert forall|j: int, k: int|
                0 <= j < count && 0 <= k < lists@[j]@.len() implies (#[trigger] lists@[j]@[k]) < i
                + 1 by {
                if j == slot {
                    if k < before[j]@.len() {
                        assert(lists@[j]@[k] == before[j]@[k]);
                    }
                } else {
                    assert(lists@[j] == before[j]);
                }
            }
        }
        i += 1;
    }
    proof {
        assert(w.take(n as int) =~= w);
    }
    lists
}

/// The share of a single item, rounded up to whole slots.
fn ideal_of(item: &Item, scale: &Scale) -> (ideal: u128)
    requires
        item.valid(),
        scale.bounded(),
    ensures
        ideal == scale@.ideal(item.absolute_units(), item.relative_seconds()),
{
    let (units, seconds): (u128, u128) = match item.absolute {
        Some(units) => (units as u128, 0),
        None => (0, item.seconds as u128),
    };
    proof {
        assert(units * scale.granularity <= u32::MAX * 100) by (nonlinear_arith)
            requires
                units <= u32::MAX,
                0 < scale.granularity <= 100,
        ;
        assert(units * scale.granularity * scale.weight <= u32::MAX * 100 * (MAX_ITEMS
            * MAX_SECONDS)) by (nonlinear_arith)
            requires
                units * scale.granularity <= u32::MAX * 100,
                scale.weight <= MAX_ITEMS * MAX_SECONDS,
        ;
        assert(seconds * scale.pool <= MAX_SECONDS * (MAX_ITEMS * 100_000)) by (nonlinear_arith)
            requires
                seconds <= MAX_SECONDS,
                scale.pool <= MAX_ITEMS * 100_000,
        ;
    }
    let unit: u128 = 1000 * scale.weight;
    let numerator: u128 = units * scale.granularity as u128 * scale.weight + seconds * scale.pool;
    if numerator % unit > 0 {
        numerator / unit + 1
    } else {
        numerator / unit
    }
}

/// Lets the items at `members` draw on their own days. Gives back what the
/// row has yet to place.
fn place_on_own_days(
    log: &mut Vec<Placement>,
    caps: &mut Vec<u8>,
    due: u64,
    survey: &Survey,
    scale: &Scale,
    members: &Vec<usize>,
    bounded: bool,
) -> (rest: u64)
    requires
        survey.wf(),
        scale.bounded(),
        old(caps)@.len() == survey.days@.len(),
        forall|k: int| 0 <= k < members@.len() ==> #[trigger] members@[k] < survey.items@.len(),
    ensures
        ledger_of(final(log)@, final(caps)@, rest) == own_days_pass(
            ledger_of(old(log)@, old(caps)@, due),
            survey.items@,
            scale@,
            days_of(survey.items@),
            positions(members@),
            bounded,
        ),
        final(caps)@.len() == old(caps)@.len(),
{
    let n = members.len();
    let ghost start = ledger_of(log@, caps@, due);
    let ghost w = survey.items@;
    let ghost days = days_of(w);
    let ghost turns = positions(members@);
    let mut rest: u64 = due;
    let mut k: usize = 0;
    while k < n && rest > 0
        invariant
            survey.wf(),
            scale.bounded(),
            w == survey.items@,
            days == days_of(w),
            turns == positions(members@),
            n == members@.len(),
            0 <= k <= n,
            caps@.len() == survey.days@.len(),
            forall|t: int| 0 <= t < members@.len() ==> #[trigger] members@[t] < w.len(),
            ledger_of(log@, caps@, rest) == own_days_pass(
                start,
                w,
                scale@,
                days,
                turns.take(k as int),
                bounded,
            ),
        decreases n - k,
    {
        let at = members[k];
        let item = survey.items[at];
        let slot = survey.day_of[at];
        let room: u64 = caps[slot] as u64;
        let open: u64 = if rest <= room {
            rest
        } else {
            room
        };
        proof {
            assert(w[at as int].valid());
        }
        let amount: u64 = if bounded {
            let ideal = ideal_of(&item, scale);
            if open as u128 <= ideal {
                open
            } else {
                ideal as u64
            }
        } else {
            open
        };
        let ghost held_log = log@;
        let ghost held_caps = caps@;
        log.push(Placement { row: item.row, day: item.day, amount: amount as u8 });
        caps.set(slot, (room - amount) as u8);
        rest = rest - amount;
        proof {
            assert(turns.take(k as int + 1).drop_last() =~= turns.take(k as int));
            assert(turns.take(k as int + 1).last() == at as int);
            let before = ledger_of(held_log, held_caps, (rest + amount) as u64);
            assert(before.caps[slot as int] == room as int);
            let after = settle(
                before,
                item.row as int,
                item.day as int,
                slot as int,
                amount as int,
            );
            assert(ledger_of(log@, caps@, rest).log =~= after.log);
            assert(ledger_of(log@, caps@, rest).caps =~= after.caps);
        }
        k += 1;
    }
    proof {
        lemma_own_days_spent(start, w, scale@, days, turns, bounded, k as int);
    }
    rest
}

/// Lets the row draw on every day of the bucket, by ascending remaining
/// capacity. Gives back what could not be placed.
fn place_on_any_day(
    log: &mut Vec<Placement>,
    caps: &mut Vec<u8>,
    due: u64,
    survey: &Survey,
    row: usize,
) -> (rest: u64)
    requires
        survey.wf(),
        old(caps)@.len() == survey.days@.len(),
    ensures
        ledger_of(final(log)@, final(caps)@, rest) == any_day_pass(
            ledger_of(old(log)@, old(caps)@, due),
            row as int,
            days_of(survey.items@),
            stable_order(ledger_of(old(log)@, old(caps)@, due).caps),
        ),
        final(caps)@.len() == old(caps)@.len(),
{
    let count = caps.len();
    let ghost start = ledger_of(log@, caps@, due);
    let ghost days = days_of(survey.items@);
    if due == 0 {
        proof {
            lemma_any_day_spent(start, row as int, days, stable_order(start.caps), 0);
        }
        return due;
    }
    let mut keys: Vec<i128> = Vec::new();
    let mut t: usize = 0;
    while t < count
        invariant
            count == caps@.len(),
            0 <= t <= count,
            keys@.len() == t,
            forall|k: int| 0 <= k < t ==> #[trigger] keys@[k] == caps@[k],
        decreases count - t,
    {
        keys.push(caps[t] as i128);
        t += 1;
    }
    proof {
        assert(key_values(keys@) =~= start.caps);
    }
    let order = sort_indices(&keys);
    let ghost turns = positions(order@);
    let mut rest: u64 = due;
    let mut k: usize = 0;
    while k < count && rest > 0
        invariant
            survey.wf(),
            days == days_of(survey.items@),
            turns == positions(order@),
            count == order@.len(),
            count == survey.days@.len(),
            caps@.len() == count,
            0 <= k <= count,
            forall|t: int| 0 <= t < order@.len() ==> #[trigger] order@[t] < count,
            ledger_of(log@, caps@, rest) == any_day_pass(
                start,
                row as int,
                days,
                turns.take(k as int),
            ),
        decreases count - k,
    {
        let slot = order[k];
        let room: u64 = caps[slot] as u64;
        let amount: u64 = if rest <= room {
            rest
        } else {
            room
        };
        let ghost held_log = log@;
        let ghost held_caps = caps@;
        proof {
            assert(key_values(survey.days@)[slot as int] == survey.days@[slot as int] as int);
        }
        log.push(Placement { row, day: survey.days[slot] as i64, amount: amount as u8 });
        caps.set(slot, (room - amount) as u8);
        rest = rest - amount;
        proof {
            assert(turns.take(k as int + 1).drop_last() =~= turns.take(k as int));
            assert(turns.take(k as int + 1).last() == slot as int);
            let before = ledger_of(held_log, held_caps, (rest + amount) as u64);
            assert(before.caps[slot as int] == room as int);
            let after = settle(before, row as int, days[slot as int], slot as int, amount as int);
            assert(ledger_of(log@, caps@, rest).log =~= after.log);
            assert(ledger_of(log@, caps@, rest).caps =~= after.caps);
        }
        k += 1;
    }
    proof {
        lemma_any_day_spent(start, row as int, days, turns, k as int);
    }
    rest
}

/// The day placement allocator: the placements of the quotas of a surveyed
/// bucket, in the order in which they are made.
pub fn place_quotas(survey: &Survey, scale: &Scale, quota: &Vec<u64>) -> (log: Vec<Placement>)
    requires
        survey.wf(),
        scale.bounded(),
        quota@.len() == survey.rows@.len(),
    ensures
        placed(log@) == placed_quotas(survey.items@, scale@, slots(quota@)),
{
    let lists = group_members(survey);
    let count = survey.rows.len();
    let granularity = scale.granularity;
    let ghost w = survey.items@;
    let ghost rates = scale@;
    let ghost rows = rows_of(w);
    let ghost days = days_of(w);
    let ghost shares = slots(quota@);
    let mut keys: Vec<i128> = Vec::new();
    let mut j: usize = 0;
    while j < count
        invariant
            count == quota@.len(),
            0 <= j <= count,
            keys@.len() == j,
            forall|k: int| 0 <= k < j ==> #[trigger] keys@[k] == quota@[k],
        decreases count - j,
    {
        keys.push(quota[j] as i128);
        j += 1;
    }
    let visit = sort_indices(&keys);
    let day_count = survey.days.len();
    let mut caps: Vec<u8> = Vec::new();
    let mut t: usize = 0;
    while t < day_count
        invariant
            0 <= t <= day_count,
            caps@.len() == t,
            forall|k: int| 0 <= k < t ==> #[trigger] caps@[k] == granularity,
        decreases day_count - t,
    {
        caps.push(granularity);
        t += 1;
    }
    let mut log: Vec<Placement> = Vec::new();
    let ghost turns = positions(visit@);
    let ghost start = opening(days, granularity as int);
    proof {
        assert(key_values(keys@) =~= shares);
        assert(key_values(survey.days@).len() == survey.days@.len());
        assert(ledger_of(log@, caps@, 0).log =~= start.log);
        assert(ledger_of(log@, caps@, 0).caps =~= start.caps);
    }
    let mut due: u64 = 0;
    let mut k: usize = 0;
    while k < count
        invariant
            survey.wf(),
            scale.bounded(),
            scale@ == rates,
            w == survey.items@,
            rows == rows_of(w),
            days == days_of(w),
            shares == slots(quota@),
            turns == positions(visit@),
            count == survey.rows@.len(),
            count == visit@.len(),
            count == quota@.len(),
            count == lists@.len(),
            caps@.len() == survey.days@.len(),
            0 <= k <= count,
            forall|t: int| 0 <= t < visit@.len() ==> #[trigger] visit@[t] < count,
            forall|j: int|
                0 <= j < lists@.len() ==> positions((#[trigger] lists@[j])@) == members(
                    w,
                    survey.rows@[j] as int,
                ),
            forall|j: int, t: int|
                0 <= j < lists@.len() && 0 <= t < lists@[j]@.len() ==> (#[trigger] lists@[j]@[t])
                    < w.len(),
            ledger_of(log@, caps@, due) == place_rows(
                start,
                w,
                rates,
                rows,
                days,
                shares,
                turns.take(k as int),
            ),
        decreases count - k,
    {
        let j = visit[k];
        let row = survey.rows[j] as usize;
        proof {
            assert(turns.take(k as int + 1).drop_last() =~= turns.take(k as int));
            assert(turns.take(k as int + 1).last() == j as int);
            assert(key_values(survey.rows@)[j as int] == survey.rows@[j as int] as int);
            assert(shares[j as int] == quota@[j as int] as int);
            assert(owing(ledger_of(log@, caps@, due), quota@[j as int] as int) == ledger_of(
                log@,
                caps@,
                quota@[j as int],
            ));
        }
        let first =
            place_on_own_days(&mut log, &mut caps, quota[j], survey, scale, &lists[j], true);
        let second =
            place_on_own_days(&mut log, &mut caps, first, survey, scale, &lists[j], false);
        due = place_on_any_day(&mut log, &mut caps, second, survey, row);
        k += 1;
    }
    proof {
        assert(turns.take(count as int) =~= turns);
    }
    log
}

/// The placements of one bucket, in the order in which they are made: its
/// working items are surveyed, the quota calculator gives every row its quota
/// and the day placement allocator puts the quotas on days.
pub fn allocate(items: &Vec<Item>, granularity: u8) -> (log: Vec<Placement>)
    requires
        items@.len() <= MAX_ITEMS,
        all_valid(items@),
        0 < granularity <= 100,
    ensures
        placed(log@) == placements(items@, granularity as int),
{
    let survey = survey(items);
    let scale = scale_of(&survey, granularity);
    let quota = calculate_quotas(&survey, &scale);
    place_quotas(&survey, &scale, &quota)
}

} // verus!
