//! Vectors of machine integers read as sequences of mathematical integers.

use vstd::prelude::*;

verus! {

/// The slot counts held by a vector.
pub open spec fn slots(s: Seq<u64>) -> Seq<int> {
    s.map_values(|x: u64| x as int)
}

/// The magnitudes held by a vector.
pub open spec fn magnitudes(s: Seq<u128>) -> Seq<int> {
    s.map_values(|x: u128| x as int)
}

/// The lesser of two integers.
pub open spec fn least(a: int, b: int) -> int {
    if a <= b {
        a
    } else {
        b
    }
}

/// The sum of a sequence.
pub open spec fn total(s: Seq<int>) -> int
    decreases s.len(),
{
    if s.len() == 0 {
        0
    } else {
        total(s.drop_last()) + s.last()
    }
}

/// Adding `n` at one index adds `n` to the sum.
pub proof fn lemma_total_update(s: Seq<int>, at: int, n: int)
    requires
        0 <= at < s.len(),
    ensures
        total(s.update(at, s[at] + n)) == total(s) + n,
    decreases s.len(),
{
    let out = s.update(at, s[at] + n);
    if at == s.len() - 1 {
        assert(out.drop_last() =~= s.drop_last());
    } else {
        lemma_total_update(s.drop_last(), at, n);
        assert(out.drop_last() =~= s.drop_last().update(at, s[at] + n));
    }
}

/// Whether no value of the sequence is negative.
pub open spec fn not_negative(s: Seq<int>) -> bool {
    forall|i: int| 0 <= i < s.len() ==> 0 <= #[trigger] s[i]
}

/// The values of `s` at the positions of `order`, in that order.
pub open spec fn picked(s: Seq<int>, order: Seq<int>) -> Seq<int> {
    Seq::new(order.len(), |k: int| s[order[k]])
}

/// A value put in anywhere adds itself to the sum.
pub proof fn lemma_total_insert(s: Seq<int>, at: int, x: int)
    requires
        0 <= at <= s.len(),
    ensures
        total(s.insert(at, x)) == total(s) + x,
    decreases s.len(),
{
    let out = s.insert(at, x);
    if at == s.len() {
        assert(out.drop_last() =~= s);
    } else {
        lemma_total_insert(s.drop_last(), at, x);
        assert(out.drop_last() =~= s.drop_last().insert(at, x));
    }
}

/// Values that are not negative sum to no less than any of their leading
/// parts, which sum to no less than nothing.
pub proof fn lemma_total_take(s: Seq<int>, upto: int)
    requires
        not_negative(s),
        0 <= upto <= s.len(),
    ensures
        0 <= total(s.take(upto)) <= total(s),
    decreases s.len() - upto,
{
    if upto < s.len() {
        lemma_total_take(s, upto + 1);
        assert(s.take(upto + 1).drop_last() =~= s.take(upto));
        assert(s.take(upto + 1).last() == s[upto]);
        lemma_total_not_negative(s.take(upto));
    } else {
        assert(s.take(upto) =~= s);
        lemma_total_not_negative(s);
    }
}

/// Values that are not negative sum to no less than nothing.
pub proof fn lemma_total_not_negative(s: Seq<int>)
    requires
        not_negative(s),
    ensures
        0 <= total(s),
    decreases s.len(),
{
    if s.len() > 0 {
        assert forall|i: int| 0 <= i < s.drop_last().len() implies 0 <= #[trigger] s.drop_last()[i] by {
            assert(0 <= s[i]);
        }
        lemma_total_not_negative(s.drop_last());
        assert(0 <= s[s.len() - 1]);
    }
}

/// Values that are not negative and sum to nothing are all nothing.
pub proof fn lemma_total_nothing(s: Seq<int>)
    requires
        not_negative(s),
        total(s) == 0,
    ensures
        forall|i: int| 0 <= i < s.len() ==> #[trigger] s[i] == 0,
    decreases s.len(),
{
    if s.len() > 0 {
        assert forall|i: int| 0 <= i < s.drop_last().len() implies 0 <= #[trigger] s.drop_last()[i] by {
            assert(0 <= s[i]);
        }
        lemma_total_not_negative(s.drop_last());
        assert(0 <= s[s.len() - 1]);
        lemma_total_nothing(s.drop_last());
        assert forall|i: int| 0 <= i < s.len() implies #[trigger] s[i] == 0 by {
            if i < s.len() - 1 {
                assert(s.drop_last()[i] == 0);
            }
        }
    }
}

/// A sequence of `n` times `x` sums to `n * x`.
pub proof fn lemma_total_constant(s: Seq<int>, x: int)
    requires
        forall|i: int| 0 <= i < s.len() ==> s[i] == x,
    ensures
        total(s) == s.len() * x,
    decreases s.len(),
{
    if s.len() > 0 {
        lemma_total_constant(s.drop_last(), x);
        assert(s.len() * x == (s.len() - 1) * x + x) by (nonlinear_arith);
    } else {
        assert(0 * x == 0);
    }
}

/// A sequence of zeros sums to zero.
pub proof fn lemma_total_zeros(s: Seq<int>)
    requires
        forall|i: int| 0 <= i < s.len() ==> s[i] == 0,
    ensures
        total(s) == 0,
    decreases s.len(),
{
    if s.len() > 0 {
        lemma_total_zeros(s.drop_last());
    }
}

} // verus!
