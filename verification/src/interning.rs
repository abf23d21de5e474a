//! Distinct values of a sequence, in the order in which they first appear.

use crate::ordering::key_values;
use vstd::prelude::*;

verus! {

/// The values of `s` without repetition, each at the place of its first
/// appearance.
pub open spec fn distinct<T>(s: Seq<T>) -> Seq<T>
    decreases s.len(),
{
    if s.len() == 0 {
        Seq::empty()
    } else {
        let before = distinct(s.drop_last());
        if before.contains(s.last()) {
            before
        } else {
            before.push(s.last())
        }
    }
}

/// In a sequence without repetition a value has one index only.
pub proof fn lemma_index_of_unique<T>(s: Seq<T>, at: int)
    requires
        s.no_duplicates(),
        0 <= at < s.len(),
    ensures
        s.index_of(s[at]) == at,
{
    let found = s.index_of(s[at]);
    assert(0 <= found < s.len() && s[found] == s[at]);
}

/// `distinct` repeats nothing, holds every value of the sequence and no other.
pub proof fn lemma_distinct<T>(s: Seq<T>)
    ensures
        distinct(s).no_duplicates(),
        distinct(s).len() <= s.len(),
        forall|i: int| 0 <= i < s.len() ==> distinct(s).contains(#[trigger] s[i]),
        forall|j: int| 0 <= j < distinct(s).len() ==> s.contains(#[trigger] distinct(s)[j]),
    decreases s.len(),
{
    if s.len() > 0 {
        let front = s.drop_last();
        lemma_distinct(front);
        let before = distinct(front);
        let out = distinct(s);
        assert forall|i: int| 0 <= i < s.len() implies out.contains(#[trigger] s[i]) by {
            if i < front.len() {
                assert(front[i] == s[i]);
                let at = choose|at: int| 0 <= at < before.len() && before[at] == front[i];
                assert(out[at] == s[i]);
            } else if before.contains(s.last()) {
            } else {
                assert(out[before.len() as int] == s[i]);
            }
        }
        assert forall|j: int| 0 <= j < out.len() implies s.contains(#[trigger] out[j]) by {
            if j < before.len() {
                assert(out[j] == before[j]);
                let at = choose|at: int| 0 <= at < front.len() && front[at] == before[j];
                assert(s[at] == out[j]);
            } else {
                assert(s[s.len() - 1] == out[j]);
            }
        }
    }
}

/// Lists the distinct keys in the order of their first appearance and gives,
/// for each position, the index of its key in that list.
pub fn intern(keys: &Vec<i128>) -> (out: (Vec<i128>, Vec<usize>))
    ensures
        key_values(out.0@) == distinct(key_values(keys@)),
        key_values(out.0@).no_duplicates(),
        out.0@.len() <= keys@.len(),
        out.1@.len() == keys@.len(),
        forall|i: int|
            0 <= i < keys@.len() ==> (#[trigger] out.1@[i]) < out.0@.len() && out.0@[out.1@[i] as int]
                == keys@[i],
        forall|i: int|
            0 <= i < keys@.len() ==> (#[trigger] out.1@[i]) as int == distinct(
                key_values(keys@),
            ).index_of(keys@[i] as int),
{
    let n = keys.len();
    let ghost all = key_values(keys@);
    let mut labels: Vec<i128> = Vec::new();
    let mut slots: Vec<usize> = Vec::new();
    let mut i: usize = 0;
    while i < n
        invariant
            n == keys@.len(),
            all == key_values(keys@),
            0 <= i <= n,
            slots@.len() == i,
            labels@.len() <= i,
            key_values(labels@) == distinct(all.take(i as int)),
            key_values(labels@).no_duplicates(),
            forall|k: int|
                0 <= k < i ==> (#[trigger] slots@[k]) < labels@.len() && labels@[slots@[k] as int]
                    == keys@[k],
        decreases n - i,
    {
        let key = keys[i];
        let ghost before = key_values(labels@);
        let mut j: usize = labels.len();
        let mut found = false;
        while j > 0 && !found
            invariant
                0 <= j <= labels@.len(),
                before == key_values(labels@),
                found ==> j < labels@.len() && labels@[j as int] == key,
                !found ==> forall|k: int| j <= k < labels@.len() ==> labels@[k] != key,
            decreases j + if found { 0int } else { 1int },
        {
            j -= 1;
            if labels[j] == key {
                found = true;
            }
        }
        proof {
            assert(all.take(i as int + 1).drop_last() =~= all.take(i as int));
            assert(all.take(i as int + 1).last() == key as int);
            if found {
                assert(before[j as int] == key as int);
                assert(before.contains(key as int));
            } else {
                assert forall|k: int| 0 <= k < before.len() implies before[k] != key as int by {
                    assert(before[k] == labels@[k] as int);
                }
                assert(!before.contains(key as int));
                assert(key_values(labels@.push(key)) =~= before.push(key as int));
                assert forall|a: int, b: int|
                    0 <= a < before.len() + 1 && 0 <= b < before.len() + 1
                        && a != b implies before.push(key as int)[a] != before.push(key as int)[b] by {
                    if a < before.len() && b < before.len() {
                        assert(before[a] != before[b]);
                    }
                }
            }
        }
        if found {
            slots.push(j);
        } else {
            slots.push(labels.len());
            labels.push(key);
        }
        i += 1;
    }
    proof {
        assert(all.take(n as int) =~= all);
        let names = key_values(labels@);
        assert forall|k: int| 0 <= k < n implies (#[trigger] slots@[k]) as int == names.index_of(
            keys@[k] as int,
        ) by {
            let at = slots@[k] as int;
            assert(names[at] == keys@[k] as int);
            lemma_index_of_unique(names, at);
        }
    }
    (labels, slots)
}

} // verus!
