//! The quota calculator: each row's share of a bucket's slots, rounded by
//! largest remainder.
//!
//! A share has two parts. The absolute part is the row's overrides, a
//! thousandth of a day being a thousandth of the day's slots. The relative part
//! divides the slots that the overrides leave among the rows by their seconds.
//! Both parts are exact fractions; no floating point is involved.

use crate::numbers::{least, magnitudes, slots};
use crate::ordering::{key_values, lemma_stable_order, positions, sort_indices, stable_order};
use crate::tablers::bucket::{
    days_of, row_absolute, row_relative, rows_of, total_absolute, total_relative, Item, Survey,
    MAX_ITEMS, MAX_SECONDS,
};
use vstd::prelude::*;

verus! {

/// The terms in which the shares of one bucket are computed.
pub struct Rates {
    /// Slots per workday.
    pub granularity: int,
    /// What the overrides leave of the bucket's days, in thousandths of a slot:
    /// never negative.
    pub pool: int,
    /// The seconds among which the pool is divided: all relative seconds, or 1
    /// where there are none, when nothing is divided.
    pub weight: int,
}

impl Rates {
    /// The common denominator of all shares.
    pub open spec fn unit(self) -> int {
        1000 * self.weight
    }

    /// The whole slots in the absolute part of a share.
    pub open spec fn absolute_claim(self, units: int) -> int {
        units * self.granularity / 1000
    }

    /// The whole slots in the relative part of a share.
    pub open spec fn relative_claim(self, seconds: int) -> int {
        seconds * self.pool / self.unit()
    }

    /// What the two parts of a share leave beyond their whole slots, added up,
    /// as a numerator over `unit`.
    pub open spec fn remainder(self, units: int, seconds: int) -> int {
        (units * self.granularity % 1000) * self.weight + (seconds * self.pool) % self.unit()
    }

    /// The share of a single item, rounded up to whole slots.
    pub open spec fn ideal(self, units: int, seconds: int) -> int {
        let numerator = units * self.granularity * self.weight + seconds * self.pool;
        numerator / self.unit() + if numerator % self.unit() > 0 {
            1int
        } else {
            0int
        }
    }
}

/// The slots of a bucket: `granularity` for each day on which a working item
/// starts.
pub open spec fn budget_of(w: Seq<Item>, granularity: int) -> int {
    days_of(w).len() * granularity
}

/// The rates of a bucket with working items `w`.
pub open spec fn rates_of(w: Seq<Item>, granularity: int) -> Rates {
    let capacity = days_of(w).len() * 1000;
    let claimed = total_absolute(w);
    Rates {
        granularity,
        pool: if capacity > claimed {
            (capacity - claimed) * granularity
        } else {
            0
        },
        weight: if total_relative(w) > 0 {
            total_relative(w)
        } else {
            1
        },
    }
}

/// For each row, the whole slots in the absolute part of its share.
pub open spec fn absolute_claims(w: Seq<Item>, granularity: int) -> Seq<int> {
    Seq::new(
        rows_of(w).len(),
        |j: int| rates_of(w, granularity).absolute_claim(row_absolute(w, rows_of(w)[j])),
    )
}

/// For each row, the whole slots in the relative part of its share.
pub open spec fn relative_claims(w: Seq<Item>, granularity: int) -> Seq<int> {
    Seq::new(
        rows_of(w).len(),
        |j: int| rates_of(w, granularity).relative_claim(row_relative(w, rows_of(w)[j])),
    )
}

/// For each row, the remainder of its share.
pub open spec fn remainders(w: Seq<Item>, granularity: int) -> Seq<int> {
    Seq::new(
        rows_of(w).len(),
        |j: int|
            rates_of(w, granularity).remainder(
                row_absolute(w, rows_of(w)[j]),
                row_relative(w, rows_of(w)[j]),
            ),
    )
}

/// The state of the apportionment: the slots given to each row so far, and
/// the slots not yet given.
pub struct Round {
    pub quota: Seq<int>,
    pub left: int,
}

/// The round after the first `upto` rows have each taken their claim, or what
/// was left of the budget when their turn came.
pub open spec fn claim_pass(start: Round, claims: Seq<int>, upto: int) -> Round
    decreases upto,
{
    if upto <= 0 {
        start
    } else {
        let before = claim_pass(start, claims, upto - 1);
        let given = least(claims[upto - 1], before.left);
        Round {
            quota: before.quota.update(upto - 1, before.quota[upto - 1] + given),
            left: before.left - given,
        }
    }
}

/// The round after the rows in `order` have each, in turn, taken one more
/// slot where their remainder is positive and a slot was left.
pub open spec fn bonus_pass(start: Round, remainder: Seq<int>, order: Seq<int>) -> Round
    decreases order.len(),
{
    if order.len() == 0 {
        start
    } else {
        let before = bonus_pass(start, remainder, order.drop_last());
        let row = order.last();
        let given = if remainder[row] > 0 && before.left > 0 {
            1int
        } else {
            0int
        };
        Round {
            quota: before.quota.update(row, before.quota[row] + given),
            left: before.left - given,
        }
    }
}

/// The rows by descending remainder; rows with equal remainders in ascending
/// order.
pub open spec fn bonus_order(remainder: Seq<int>) -> Seq<int> {
    stable_order(remainder.map_values(|r: int| -r))
}

/// The three passes of the apportionment, from nothing given to the final
/// round.
pub open spec fn apportionment(
    absolute: Seq<int>,
    relative: Seq<int>,
    remainder: Seq<int>,
    budget: int,
) -> Round {
    let start = Round { quota: Seq::new(absolute.len(), |j: int| 0int), left: budget };
    let first = claim_pass(start, absolute, absolute.len() as int);
    let second = claim_pass(first, relative, relative.len() as int);
    bonus_pass(second, remainder, bonus_order(remainder))
}

/// The slots of each row after the three passes.
pub open spec fn apportioned(
    absolute: Seq<int>,
    relative: Seq<int>,
    remainder: Seq<int>,
    budget: int,
) -> Seq<int> {
    apportionment(absolute, relative, remainder, budget).quota
}

/// The quota of each row of a bucket with working items `w`.
pub open spec fn quotas(w: Seq<Item>, granularity: int) -> Seq<int> {
    apportioned(
        absolute_claims(w, granularity),
        relative_claims(w, granularity),
        remainders(w, granularity),
        budget_of(w, granularity),
    )
}

/// A pass of claims keeps the number of rows.
pub proof fn lemma_claim_pass_len(start: Round, claims: Seq<int>, upto: int)
    requires
        upto <= start.quota.len(),
    ensures
        claim_pass(start, claims, upto).quota.len() == start.quota.len(),
    decreases upto,
{
    if upto > 0 {
        lemma_claim_pass_len(start, claims, upto - 1);
    }
}

/// The pass of the remainders keeps the number of rows.
pub proof fn lemma_bonus_pass_len(start: Round, remainder: Seq<int>, order: Seq<int>)
    requires
        forall|k: int| 0 <= k < order.len() ==> 0 <= #[trigger] order[k] < start.quota.len(),
    ensures
        bonus_pass(start, remainder, order).quota.len() == start.quota.len(),
    decreases order.len(),
{
    if order.len() > 0 {
        lemma_bonus_pass_len(start, remainder, order.drop_last());
    }
}

/// The apportionment gives every row a quota.
pub proof fn lemma_apportioned_len(
    absolute: Seq<int>,
    relative: Seq<int>,
    remainder: Seq<int>,
    budget: int,
)
    requires
        absolute.len() == relative.len(),
        absolute.len() == remainder.len(),
    ensures
        apportioned(absolute, relative, remainder, budget).len() == absolute.len(),
{
    let start = Round { quota: Seq::new(absolute.len(), |j: int| 0int), left: budget };
    lemma_claim_pass_len(start, absolute, absolute.len() as int);
    let first = claim_pass(start, absolute, absolute.len() as int);
    lemma_claim_pass_len(first, relative, relative.len() as int);
    let second = claim_pass(first, relative, relative.len() as int);
    lemma_stable_order(remainder.map_values(|r: int| -r));
    lemma_bonus_pass_len(second, remainder, bonus_order(remainder));
}

/// Every row of a bucket has a quota.
pub proof fn lemma_quotas_len(w: Seq<Item>, granularity: int)
    ensures
        quotas(w, granularity).len() == rows_of(w).len(),
{
    lemma_apportioned_len(
        absolute_claims(w, granularity),
        relative_claims(w, granularity),
        remainders(w, granularity),
        budget_of(w, granularity),
    );
}

/// The round in which `quota` has been given and `left` slots have not.
pub open spec fn round_of(quota: Seq<u64>, left: u64) -> Round {
    Round { quota: slots(quota), left: left as int }
}

/// The rates of a bucket as the machine holds them, with the bucket's budget.
pub struct Scale {
    pub granularity: u8,
    pub pool: u128,
    pub weight: u128,
    pub budget: u64,
}

impl View for Scale {
    type V = Rates;

    open spec fn view(&self) -> Rates {
        Rates {
            granularity: self.granularity as int,
            pool: self.pool as int,
            weight: self.weight as int,
        }
    }
}

impl Scale {
    /// The bounds within which every share fits in 128 bits.
    pub open spec fn bounded(&self) -> bool {
        &&& 0 < self.granularity <= 100
        &&& self.pool <= MAX_ITEMS * 100_000
        &&& 1 <= self.weight <= MAX_ITEMS * MAX_SECONDS
        &&& self.budget <= MAX_ITEMS * 100
    }
}

/// Works out the rates and the budget of a surveyed bucket.
pub fn scale_of(survey: &Survey, granularity: u8) -> (scale: Scale)
    requires
        survey.wf(),
        0 < granularity <= 100,
    ensures
        scale.granularity == granularity,
        scale@ == rates_of(survey.items@, granularity as int),
        scale.budget == budget_of(survey.items@, granularity as int),
        scale.bounded(),
{
    let workdays = survey.days.len();
    proof {
        assert(key_values(survey.days@).len() == survey.days@.len());
        assert(workdays * 1000 <= MAX_ITEMS * 1000) by (nonlinear_arith)
            requires
                workdays <= MAX_ITEMS,
        ;
        assert(workdays * granularity <= MAX_ITEMS * 100) by (nonlinear_arith)
            requires
                workdays <= MAX_ITEMS,
                0 < granularity <= 100,
        ;
        assert(survey.items@.len() * MAX_SECONDS <= MAX_ITEMS * MAX_SECONDS) by (nonlinear_arith)
            requires
                survey.items@.len() <= MAX_ITEMS,
        ;
    }
    let capacity: u128 = workdays as u128 * 1000;
    let pool: u128 = if capacity > survey.total_absolute {
        let spare: u128 = capacity - survey.total_absolute;
        assert(spare * granularity <= MAX_ITEMS * 100_000) by (nonlinear_arith)
            requires
                spare <= MAX_ITEMS * 1000,
                0 < granularity <= 100,
        ;
        spare * granularity as u128
    } else {
        0
    };
    let weight: u128 = if survey.total_relative > 0 {
        survey.total_relative
    } else {
        1
    };
    Scale { granularity, pool, weight, budget: workdays as u64 * granularity as u64 }
}

/// What each row claims: the whole slots of the two parts of its share, and
/// its remainder.
pub struct Claims {
    pub absolute: Vec<u128>,
    pub relative: Vec<u128>,
    pub remainder: Vec<u128>,
}

/// Computes the claims of every row of a surveyed bucket.
pub fn claims_of(survey: &Survey, scale: &Scale) -> (claims: Claims)
    requires
        survey.wf(),
        scale@ == rates_of(survey.items@, scale.granularity as int),
        scale.bounded(),
    ensures
        magnitudes(claims.absolute@) == absolute_claims(survey.items@, scale.granularity as int),
        magnitudes(claims.relative@) == relative_claims(survey.items@, scale.granularity as int),
        magnitudes(claims.remainder@) == remainders(survey.items@, scale.granularity as int),
        claims.absolute@.len() == survey.rows@.len(),
        claims.relative@.len() == survey.rows@.len(),
        claims.remainder@.len() == survey.rows@.len(),
        forall|j: int|
            0 <= j < claims.remainder@.len() ==> #[trigger] claims.remainder@[j] <= i128::MAX,
{
    let count = survey.rows.len();
    let granularity = scale.granularity;
    let unit: u128 = 1000 * scale.weight;
    let ghost w = survey.items@;
    let ghost rates = rates_of(w, granularity as int);
    let mut absolute: Vec<u128> = Vec::new();
    let mut relative: Vec<u128> = Vec::new();
    let mut remainder: Vec<u128> = Vec::new();
    let mut j: usize = 0;
    proof {
        assert(key_values(survey.rows@).len() == survey.rows@.len());
    }
    while j < count
        invariant
            survey.wf(),
            w == survey.items@,
            rates == rates_of(w, granularity as int),
            scale@ == rates,
            scale.bounded(),
            unit == rates.unit(),
            count == survey.rows@.len(),
            count == rows_of(w).len(),
            0 <= j <= count,
            absolute@.len() == j,
            relative@.len() == j,
            remainder@.len() == j,
            forall|k: int|
                0 <= k < j ==> #[trigger] absolute@[k] == rates.absolute_claim(
                    row_absolute(w, rows_of(w)[k]),
                ),
            forall|k: int|
                0 <= k < j ==> #[trigger] relative@[k] == rates.relative_claim(
                    row_relative(w, rows_of(w)[k]),
                ),
            forall|k: int|
                0 <= k < j ==> #[trigger] remainder@[k] == rates.remainder(
                    row_absolute(w, rows_of(w)[k]),
                    row_relative(w, rows_of(w)[k]),
                ) && remainder@[k] <= i128::MAX,
        decreases count - j,
    {
        let units: u128 = survey.absolute[j];
        let seconds: u128 = survey.relative[j];
        proof {
            assert(key_values(survey.rows@)[j as int] == survey.rows@[j as int] as int);
            assert(units == row_absolute(w, rows_of(w)[j as int]));
            assert(seconds == row_relative(w, rows_of(w)[j as int]));
            assert(units * granularity <= MAX_ITEMS * u32::MAX * 100) by (nonlinear_arith)
                requires
                    units <= w.len() * u32::MAX,
                    w.len() <= MAX_ITEMS,
                    0 < granularity <= 100,
            ;
            assert(seconds * scale.pool <= MAX_ITEMS * MAX_SECONDS * (MAX_ITEMS * 100_000))
                by (nonlinear_arith)
                requires
                    seconds <= w.len() * MAX_SECONDS,
                    w.len() <= MAX_ITEMS,
                    scale.pool <= MAX_ITEMS * 100_000,
            ;
        }
        let by_override: u128 = units * granularity as u128;
        let by_seconds: u128 = seconds * scale.pool;
        let override_rest: u128 = by_override % 1000;
        proof {
            assert(override_rest * scale.weight <= 999 * (MAX_ITEMS * MAX_SECONDS))
                by (nonlinear_arith)
                requires
                    override_rest <= 999,
                    scale.weight <= MAX_ITEMS * MAX_SECONDS,
            ;
        }
        absolute.push(by_override / 1000);
        relative.push(by_seconds / unit);
        remainder.push(override_rest * scale.weight + by_seconds % unit);
        j += 1;
    }
    proof {
        assert(magnitudes(absolute@) =~= absolute_claims(w, granularity as int));
        assert(magnitudes(relative@) =~= relative_claims(w, granularity as int));
        assert(magnitudes(remainder@) =~= remainders(w, granularity as int));
    }
    Claims { absolute, relative, remainder }
}

/// Lets each row in turn take its claim, or what is left of the budget.
fn take_claims(
    quota: &mut Vec<u64>,
    left: u64,
    claims: &Vec<u128>,
    Ghost(budget): Ghost<int>,
) -> (rest: u64)
    requires
        old(quota)@.len() == claims@.len(),
        forall|j: int| 0 <= j < old(quota)@.len() ==> #[trigger] old(quota)@[j] + left <= budget,
        budget <= u64::MAX,
    ensures
        round_of(final(quota)@, rest) == claim_pass(
            round_of(old(quota)@, left),
            magnitudes(claims@),
            claims@.len() as int,
        ),
        final(quota)@.len() == old(quota)@.len(),
        forall|j: int|
            0 <= j < final(quota)@.len() ==> #[trigger] final(quota)@[j] + rest <= budget,
{
    let n = claims.len();
    let ghost start = round_of(quota@, left);
    let ghost wanted = magnitudes(claims@);
    let mut rest: u64 = left;
    let mut j: usize = 0;
    while j < n
        invariant
            n == claims@.len(),
            quota@.len() == n,
            wanted == magnitudes(claims@),
            0 <= j <= n,
            budget <= u64::MAX,
            round_of(quota@, rest) == claim_pass(start, wanted, j as int),
            forall|k: int| 0 <= k < n ==> #[trigger] quota@[k] + rest <= budget,
        decreases n - j,
    {
        let claim: u128 = claims[j];
        let given: u64 = if claim <= rest as u128 {
            claim as u64
        } else {
            rest
        };
        let ghost before = quota@;
        let held: u64 = quota[j];
        quota.set(j, held + given);
        rest = rest - given;
        proof {
            assert(given as int == least(wanted[j as int], rest + given));
            assert(slots(quota@) =~= slots(before).update(j as int, before[j as int] + given));
            assert forall|k: int| 0 <= k < n implies #[trigger] quota@[k] + rest <= budget by {
                if k != j {
                    assert(quota@[k] == before[k]);
                }
            }
        }
        j += 1;
    }
    rest
}

/// Gives the rows in `order` one more slot each, where their remainder is
/// positive, until no slot is left.
fn take_bonus(
    quota: &mut Vec<u64>,
    left: u64,
    remainder: &Vec<u128>,
    order: &Vec<usize>,
    Ghost(budget): Ghost<int>,
) -> (rest: u64)
    requires
        old(quota)@.len() == remainder@.len(),
        forall|k: int| 0 <= k < order@.len() ==> #[trigger] order@[k] < remainder@.len(),
        forall|j: int| 0 <= j < old(quota)@.len() ==> #[trigger] old(quota)@[j] + left <= budget,
        budget <= u64::MAX,
    ensures
        round_of(final(quota)@, rest) == bonus_pass(
            round_of(old(quota)@, left),
            magnitudes(remainder@),
            positions(order@),
        ),
        final(quota)@.len() == old(quota)@.len(),
        forall|j: int|
            0 <= j < final(quota)@.len() ==> #[trigger] final(quota)@[j] + rest <= budget,
{
    let n = order.len();
    let ghost start = round_of(quota@, left);
    let ghost fractions = magnitudes(remainder@);
    let ghost turns = positions(order@);
    let mut rest: u64 = left;
    let mut k: usize = 0;
    while k < n && rest > 0
        invariant
            n == order@.len(),
            quota@.len() == remainder@.len(),
            fractions == magnitudes(remainder@),
            turns == positions(order@),
            0 <= k <= n,
            budget <= u64::MAX,
            forall|t: int| 0 <= t < order@.len() ==> #[trigger] order@[t] < remainder@.len(),
            round_of(quota@, rest) == bonus_pass(
                start,
                fractions,
                turns.take(k as int),
            ),
            forall|j: int| 0 <= j < quota@.len() ==> #[trigger] quota@[j] + rest <= budget,
        decreases n - k,
    {
        let row = order[k];
        let ghost before = quota@;
        proof {
            assert(turns.take(k as int + 1).drop_last() =~= turns.take(k as int));
            assert(turns.take(k as int + 1).last() == row as int);
            assert(fractions[row as int] == remainder@[row as int] as int);
        }
        if remainder[row] > 0 {
            let held: u64 = quota[row];
            quota.set(row, held + 1);
            rest = rest - 1;
            proof {
                assert(slots(quota@) =~= slots(before).update(row as int, before[row as int] + 1));
                assert forall|j: int| 0 <= j < quota@.len() implies #[trigger] quota@[j] + rest
                    <= budget by {
                    if j != row {
                        assert(quota@[j] == before[j]);
                    }
                }
            }
        } else {
            proof {
                assert(slots(quota@) =~= slots(before).update(row as int, before[row as int] + 0));
            }
        }
        k += 1;
    }
    proof {
        lemma_bonus_pass_spent(start, fractions, turns, k as int);
        assert(turns.take(n as int) =~= turns);
    }
    rest
}

/// Once no slot is left, the rest of the rows change nothing.
proof fn lemma_bonus_pass_spent(start: Round, remainder: Seq<int>, order: Seq<int>, k: int)
    requires
        0 <= k <= order.len(),
        k < order.len() ==> bonus_pass(start, remainder, order.take(k)).left == 0,
        forall|t: int| 0 <= t < order.len() ==> 0 <= #[trigger] order[t] < bonus_pass(
            start,
            remainder,
            order.take(k),
        ).quota.len(),
    ensures
        bonus_pass(start, remainder, order) == bonus_pass(start, remainder, order.take(k)),
    decreases order.len() - k,
{
    if k < order.len() {
        let here = bonus_pass(start, remainder, order.take(k));
        let next = bonus_pass(start, remainder, order.take(k + 1));
        assert(order.take(k + 1).drop_last() =~= order.take(k));
        assert(next.quota =~= here.quota);
        assert(order.take(k + 1).take(k + 1) =~= order.take(k + 1));
        lemma_bonus_pass_spent(start, remainder, order, k + 1);
    } else {
        assert(order.take(k) =~= order);
    }
}

/// The largest-remainder apportionment of `budget` slots. Each row first takes
/// the whole slots of the absolute part of its share, then those of the
/// relative part, each time no more than is left; then the rows with the
/// largest remainders take one slot more each, while slots are left.
pub fn apportion(
    absolute: &Vec<u128>,
    relative: &Vec<u128>,
    remainder: &Vec<u128>,
    budget: u64,
) -> (quota: Vec<u64>)
    requires
        absolute@.len() == relative@.len(),
        absolute@.len() == remainder@.len(),
        forall|j: int| 0 <= j < remainder@.len() ==> #[trigger] remainder@[j] <= i128::MAX,
    ensures
        slots(quota@) == apportioned(
            magnitudes(absolute@),
            magnitudes(relative@),
            magnitudes(remainder@),
            budget as int,
        ),
        quota@.len() == absolute@.len(),
        forall|j: int| 0 <= j < quota@.len() ==> #[trigger] quota@[j] <= budget,
{
    let n = absolute.len();
    let mut quota: Vec<u64> = Vec::new();
    let mut keys: Vec<i128> = Vec::new();
    let mut j: usize = 0;
    while j < n
        invariant
            n == absolute@.len(),
            n == remainder@.len(),
            0 <= j <= n,
            quota@.len() == j,
            keys@.len() == j,
            forall|k: int| 0 <= k < remainder@.len() ==> #[trigger] remainder@[k] <= i128::MAX,
            forall|k: int| 0 <= k < j ==> #[trigger] quota@[k] == 0,
            forall|k: int| 0 <= k < j ==> #[trigger] keys@[k] == -(remainder@[k] as int),
        decreases n - j,
    {
        quota.push(0);
        keys.push(-(remainder[j] as i128));
        j += 1;
    }
    proof {
        assert(slots(quota@) =~= Seq::new(magnitudes(absolute@).len(), |j: int| 0int));
        assert(key_values(keys@) =~= magnitudes(remainder@).map_values(|r: int| -r));
    }
    let after_absolute = take_claims(&mut quota, budget, absolute, Ghost(budget as int));
    let after_relative = take_claims(&mut quota, after_absolute, relative, Ghost(budget as int));
    let order = sort_indices(&keys);
    let rest = take_bonus(&mut quota, after_relative, remainder, &order, Ghost(budget as int));
    quota
}

/// The quota calculator: the quota of every row of a surveyed bucket.
pub fn calculate_quotas(survey: &Survey, scale: &Scale) -> (quota: Vec<u64>)
    requires
        survey.wf(),
        scale@ == rates_of(survey.items@, scale.granularity as int),
        scale.budget == budget_of(survey.items@, scale.granularity as int),
        scale.bounded(),
    ensures
        slots(quota@) == quotas(survey.items@, scale.granularity as int),
        quota@.len() == survey.rows@.len(),
        forall|j: int| 0 <= j < quota@.len() ==> #[trigger] quota@[j] <= scale.budget,
{
    let claims = claims_of(survey, scale);
    apportion(&claims.absolute, &claims.relative, &claims.remainder, scale.budget)
}

} // verus!
