//! The order in which testcases are considered: the cheapest first.

use vstd::prelude::*;

use crate::model::Entry;
use crate::numbers::Number;
use crate::scoring;

verus! {

/// The cost of a testcase: its execution time, multiplied by the length of its input.
pub open spec fn cost(entry: Entry) -> int {
    scoring::time_of(entry) * entry.testcase.len
}

/// The testcase at one position costs less than the one at another.
pub open spec fn by_cost(entries: Seq<Entry>) -> spec_fn(int, int) -> bool {
    |i: int, j: int| cost(entries[i]) < cost(entries[j])
}

/// The cost was computed from the execution time of the testcase and the length of its input.
pub open spec fn is_runtime<W: Number>(entry: Entry, runtime: W) -> bool {
    exists|nanos: W, len: W|
        {
            &&& call_ensures(W::of_integer, (scoring::time_of(entry),), nanos)
            &&& call_ensures(W::of_integer, (entry.testcase.len as u128,), len)
            &&& #[trigger] call_ensures(W::times, (nanos, len), runtime)
        }
}

/// The costs of `n` testcases can be put in order: of two testcases at most one is cheaper, and
/// one that is not cheaper than a second is not cheaper than what the second is not cheaper than.
pub open spec fn orderly(cheaper: spec_fn(int, int) -> bool, n: nat) -> bool {
    &&& forall|i: int, j: int|
        0 <= i < n && 0 <= j < n && #[trigger] cheaper(i, j) ==> !cheaper(j, i)
    &&& forall|i: int, j: int, k: int|
        0 <= i < n && 0 <= j < n && 0 <= k < n && !#[trigger] cheaper(i, j) && !#[trigger] cheaper(
            j,
            k,
        ) ==> !cheaper(i, k)
}

/// Position `i` comes before position `j`: the testcase there is not the more expensive one, and
/// of two testcases of the same cost the one that comes first in the corpus stays first.
pub open spec fn precedes(cheaper: spec_fn(int, int) -> bool, i: int, j: int) -> bool {
    &&& !cheaper(j, i)
    &&& cheaper(i, j) || i < j
}

/// Every position from `low` up to `high` occurs once.
pub open spec fn lists(order: Seq<usize>, low: int, high: int) -> bool {
    &&& order.len() == high - low
    &&& forall|i: int| 0 <= i < order.len() ==> low <= (#[trigger] order[i]) < high
    &&& forall|i: int, j: int|
        0 <= i < j < order.len() ==> (#[trigger] order[i]) != (#[trigger] order[j])
}

/// Every position below `n` occurs once.
pub open spec fn is_permutation(order: Seq<usize>, n: nat) -> bool {
    lists(order, 0, n as int)
}

/// Each position stands before those that it precedes.
pub open spec fn is_sorted(order: Seq<usize>, cheaper: spec_fn(int, int) -> bool) -> bool {
    forall|i: int, j: int|
        0 <= i < j < order.len() ==> precedes(
            cheaper,
            (#[trigger] order[i]) as int,
            (#[trigger] order[j]) as int,
        )
}

/// The relation can be put in order, and it is what the comparisons of the costs give.
pub open spec fn fits<W: Number>(
    cheaper: spec_fn(int, int) -> bool,
    runtimes: Seq<W>,
) -> bool {
    &&& orderly(cheaper, runtimes.len())
    &&& forall|i: int, j: int, less: bool|
        #![trigger call_ensures(W::is_less, (runtimes[i], runtimes[j]), less)]
        0 <= i < runtimes.len() && 0 <= j < runtimes.len() && call_ensures(
            W::is_less,
            (runtimes[i], runtimes[j]),
            less,
        ) ==> less == cheaper(i, j)
}

/// The positions are sorted by the computed costs: by whatever order the comparisons of these
/// give, if they give one.
pub open spec fn is_ordered<W: Number>(order: Seq<usize>, entries: Seq<Entry>) -> bool {
    exists|runtimes: Seq<W>|
        {
            &&& #[trigger] are_runtimes(runtimes, entries)
            &&& forall|cheaper: spec_fn(int, int) -> bool| #[trigger]
                fits(cheaper, runtimes) ==> is_sorted(order, cheaper)
        }
}

/// The costs were computed, one for each testcase.
pub open spec fn are_runtimes<W: Number>(runtimes: Seq<W>, entries: Seq<Entry>) -> bool {
    &&& runtimes.len() == entries.len()
    &&& forall|i: int| 0 <= i < entries.len() ==> is_runtime(entries[i], #[trigger] runtimes[i])
}

proof fn lemma_precedes_transitive(
    cheaper: spec_fn(int, int) -> bool,
    n: nat,
    i: int,
    j: int,
    k: int,
)
    requires
        orderly(cheaper, n),
        0 <= i < n,
        0 <= j < n,
        0 <= k < n,
        precedes(cheaper, i, j),
        precedes(cheaper, j, k),
    ensures
        precedes(cheaper, i, k),
{
    assert(!cheaper(k, j) && !cheaper(j, i));
    if !cheaper(i, k) {
        assert(!cheaper(i, j));
        assert(!cheaper(j, k));
    }
}

/// What was merged is sorted, and precedes what is left of both lists.
spec fn is_merged(
    cheaper: spec_fn(int, int) -> bool,
    order: Seq<usize>,
    left: Seq<usize>,
    right: Seq<usize>,
    i: int,
    j: int,
) -> bool {
    &&& is_sorted(order, cheaper)
    &&& is_sorted(left, cheaper)
    &&& is_sorted(right, cheaper)
    &&& forall|k: int, m: int|
        0 <= k < order.len() && i <= m < left.len() ==> precedes(
            cheaper,
            (#[trigger] order[k]) as int,
            (#[trigger] left[m]) as int,
        )
    &&& forall|k: int, m: int|
        0 <= k < order.len() && j <= m < right.len() ==> precedes(
            cheaper,
            (#[trigger] order[k]) as int,
            (#[trigger] right[m]) as int,
        )
}

/// One step of a merge: `next` comes from `from`, and precedes the first of the other list.
proof fn lemma_merge_step(
    cheaper: spec_fn(int, int) -> bool,
    n: nat,
    order: Seq<usize>,
    from: Seq<usize>,
    other: Seq<usize>,
    i: int,
    j: int,
)
    requires
        orderly(cheaper, n),
        forall|k: int| 0 <= k < from.len() ==> (#[trigger] from[k]) < n,
        forall|k: int| 0 <= k < other.len() ==> (#[trigger] other[k]) < n,
        0 <= i < from.len(),
        0 <= j <= other.len(),
        is_merged(cheaper, order, from, other, i, j),
        j < other.len() ==> precedes(cheaper, from[i] as int, other[j] as int),
    ensures
        is_merged(cheaper, order.push(from[i]), from, other, i + 1, j),
        is_merged(cheaper, order.push(from[i]), other, from, j, i + 1),
{
    let next = order.push(from[i]);
    assert forall|k: int, m: int| 0 <= k < next.len() && j <= m < other.len() implies precedes(
        cheaper,
        (#[trigger] next[k]) as int,
        (#[trigger] other[m]) as int,
    ) by {
        if k == order.len() && m > j {
            assert(precedes(cheaper, other[j] as int, other[m] as int));
            lemma_precedes_transitive(
                cheaper,
                n,
                from[i] as int,
                other[j] as int,
                other[m] as int,
            );
        }
    }
}

/// Merges two sorted lists of positions, all those on the left being smaller.
fn merge<W: Number>(
    runtimes: &Vec<W>,
    left: &Vec<usize>,
    right: &Vec<usize>,
    Ghost(low): Ghost<int>,
    Ghost(high): Ghost<int>,
) -> (order: Vec<usize>)
    requires
        0 <= low <= high <= runtimes@.len(),
        lists(left@, low, low + left@.len()),
        lists(right@, low + left@.len(), high),
        forall|cheaper: spec_fn(int, int) -> bool| #[trigger]
            fits(cheaper, runtimes@) ==> is_sorted(left@, cheaper) && is_sorted(right@, cheaper),
    ensures
        lists(order@, low, high),
        forall|cheaper: spec_fn(int, int) -> bool| #[trigger]
            fits(cheaper, runtimes@) ==> is_sorted(order@, cheaper),
{
    let ghost mid = low + left@.len();
    let ghost n = runtimes@.len();
    let mut order: Vec<usize> = Vec::new();
    let mut i: usize = 0;
    let mut j: usize = 0;
    while i < left.len() || j < right.len()
        invariant
            n == runtimes@.len(),
            0 <= low <= high <= n,
            mid == low + left@.len(),
            lists(left@, low, mid),
            lists(right@, mid, high),
            i <= left@.len(),
            j <= right@.len(),
            order@.len() == i + j,
            forall|k: int| 0 <= k < order@.len() ==> low <= (#[trigger] order@[k]) < high,
            forall|k: int, m: int|
                0 <= k < m < order@.len() ==> (#[trigger] order@[k]) != (#[trigger] order@[m]),
            forall|k: int, m: int|
                0 <= k < order@.len() && i <= m < left@.len() ==> (#[trigger] order@[k]) != (
                #[trigger] left@[m]),
            forall|k: int, m: int|
                0 <= k < order@.len() && j <= m < right@.len() ==> (#[trigger] order@[k]) != (
                #[trigger] right@[m]),
            forall|cheaper: spec_fn(int, int) -> bool| #[trigger]
                fits(cheaper, runtimes@) ==> is_merged(
                    cheaper,
                    order@,
                    left@,
                    right@,
                    i as int,
                    j as int,
                ),
        decreases left@.len() + right@.len() - i - j,
    {
        let from_left = i < left.len() && (j == right.len() || !runtimes[right[j]].is_less(
            runtimes[left[i]],
        ));
        let ghost before = order@;
        if from_left {
            order.push(left[i]);
            proof {
                assert forall|cheaper: spec_fn(int, int) -> bool| #[trigger]
                    fits(cheaper, runtimes@) implies is_merged(
                    cheaper,
                    order@,
                    left@,
                    right@,
                    i + 1,
                    j as int,
                ) by {
                    lemma_merge_step(cheaper, n, before, left@, right@, i as int, j as int);
                }
            }
            i = i + 1;
        } else {
            order.push(right[j]);
            proof {
                assert forall|cheaper: spec_fn(int, int) -> bool| #[trigger]
                    fits(cheaper, runtimes@) implies is_merged(
                    cheaper,
                    order@,
                    left@,
                    right@,
                    i as int,
                    j + 1,
                ) by {
                    assert(is_merged(cheaper, before, right@, left@, j as int, i as int));
                    if i < left@.len() {
                        assert(cheaper(right@[j as int] as int, left@[i as int] as int));
                    }
                    lemma_merge_step(cheaper, n, before, right@, left@, j as int, i as int);
                }
            }
            j = j + 1;
        }
    }
    order
}

/// Sorts the positions from `low` up to `high`.
fn sort_range<W: Number>(runtimes: &Vec<W>, low: usize, high: usize) -> (order: Vec<usize>)
    requires
        low <= high <= runtimes@.len(),
    ensures
        lists(order@, low as int, high as int),
        forall|cheaper: spec_fn(int, int) -> bool| #[trigger]
            fits(cheaper, runtimes@) ==> is_sorted(order@, cheaper),
    decreases high - low,
{
    if high - low == 0 {
        Vec::new()
    } else if high - low == 1 {
        let mut order: Vec<usize> = Vec::new();
        order.push(low);
        order
    } else {
        let mid = low + (high - low) / 2;
        let left = sort_range(runtimes, low, mid);
        let right = sort_range(runtimes, mid, high);
        merge(runtimes, &left, &right, Ghost(low as int), Ghost(high as int))
    }
}

/// Sorts the positions of the testcases by cost, the cheapest first.
pub fn order_by_runtime<W: Number>(entries: &Vec<Entry>) -> (order: Vec<usize>)
    ensures
        is_permutation(order@, entries@.len()),
        is_ordered::<W>(order@, entries@),
{
    let mut runtimes: Vec<W> = Vec::new();
    for n in 0..entries.len()
        invariant
            runtimes@.len() == n,
            forall|i: int| 0 <= i < n ==> is_runtime(entries@[i], #[trigger] runtimes@[i]),
    {
        let nanos = W::of_integer(scoring::time_of_entry(&entries[n]));
        let len = W::of_integer(entries[n].testcase.len as u128);
        let runtime = nanos.times(len);
        runtimes.push(runtime);
        assert(is_runtime(entries@[n as int], runtime));
    }
    assert(are_runtimes(runtimes@, entries@));
    sort_range(&runtimes, 0, entries.len())
}

} // verus!
