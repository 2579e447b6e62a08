//! Which testcase a random draw picks.

use vstd::prelude::*;

use crate::model::Entry;
use crate::numbers::Number;
use crate::scoring;

verus! {

/// A random draw is below this.
pub const MAX_RAND: u64 = 1_000_000;

/// The first `n` probabilities of a walk were added up to `k`, one after the other.
pub open spec fn sums_to<W: Number>(walk: Seq<(usize, W)>, n: nat, k: W) -> bool
    decreases n,
{
    if n == 0 {
        call_ensures(W::of_integer, (0,), k)
    } else {
        exists|before: W|
            sums_to(walk, (n - 1) as nat, before) && #[trigger] call_ensures(
                W::plus,
                (before, walk[n - 1].1),
                k,
            )
    }
}

/// One more probability is added.
pub(crate) proof fn lemma_sums_step<W: Number>(walk: Seq<(usize, W)>, n: nat, before: W, k: W)
    requires
        sums_to(walk, n, before),
        call_ensures(W::plus, (before, walk[n as int].1), k),
    ensures
        sums_to(walk, n + 1, k),
{
    let m = n + 1;
    assert(walk[m - 1] == walk[n as int] && (m - 1) as nat == n);
    assert(call_ensures(W::plus, (before, walk[m - 1].1), k));
}

/// What the first probabilities add up to does not depend on what comes after them.
pub(crate) proof fn lemma_sums_prefix<W: Number>(
    a: Seq<(usize, W)>,
    b: Seq<(usize, W)>,
    n: nat,
    k: W,
)
    requires
        n <= a.len(),
        n <= b.len(),
        forall|i: int| 0 <= i < n ==> a[i] == b[i],
        sums_to(a, n, k),
    ensures
        sums_to(b, n, k),
    decreases n,
{
    if n > 0 {
        let before = choose|before: W|
            sums_to(a, (n - 1) as nat, before) && #[trigger] call_ensures(
                W::plus,
                (before, a[n - 1].1),
                k,
            );
        lemma_sums_prefix(a, b, (n - 1) as nat, before);
    }
}

/// The first `n` probabilities of a walk were added up to `k`, and the threshold was not reached
/// with any of them.
pub open spec fn passes<W: Number>(
    walk: Seq<(usize, W)>,
    threshold: W,
    n: nat,
    k: W,
) -> bool
    decreases n,
{
    if n == 0 {
        call_ensures(W::of_integer, (0,), k)
    } else {
        exists|before: W|
            {
                &&& passes(walk, threshold, (n - 1) as nat, before)
                &&& #[trigger] call_ensures(W::plus, (before, walk[n - 1].1), k)
                &&& call_ensures(W::is_at_least, (k, threshold), false)
            }
    }
}

/// Position `n` is the first at which the probabilities reach the threshold, or the last one where
/// they reach it nowhere.
pub open spec fn is_choice<W: Number>(walk: Seq<(usize, W)>, threshold: W, n: int) -> bool {
    &&& 0 <= n < walk.len()
    &&& exists|before: W, k: W|
        {
            &&& passes(walk, threshold, n as nat, before)
            &&& #[trigger] call_ensures(W::plus, (before, walk[n].1), k)
            &&& call_ensures(W::is_at_least, (k, threshold), true) || (n == walk.len() - 1
                && call_ensures(W::is_at_least, (k, threshold), false))
        }
}

/// The threshold was computed as the part of the total probability that a draw stands for.
pub open spec fn is_threshold<W: Number>(total: W, draw: u64, threshold: W) -> bool {
    exists|drawn: W, most: W, rand_prob: W|
        {
            &&& call_ensures(W::of_integer, (draw as u128,), drawn)
            &&& call_ensures(W::of_integer, (MAX_RAND as u128,), most)
            &&& #[trigger] call_ensures(W::over, (drawn, most), rand_prob)
            &&& #[trigger] call_ensures(W::times, (total, rand_prob), threshold)
        }
}

/// The draw picks position `n` of the walk: that is the choice for the part of the total that it
/// stands for.
pub open spec fn picks<W: Number>(
    walk: Seq<(usize, W)>,
    total: W,
    draw: u64,
    n: int,
) -> bool {
    exists|threshold: W| #[trigger]
        is_threshold(total, draw, threshold) && is_choice(walk, threshold, n)
}

/// The position that a threshold picks in a walk.
pub fn choose_position<W: Number>(walk: &Vec<(usize, W)>, threshold: W) -> (position: usize)
    requires
        walk@.len() > 0,
    ensures
        is_choice(walk@, threshold, position as int),
{
    let mut k = W::of_integer(0);
    let last = walk.len() - 1;
    for n in 0..last
        invariant
            last == walk@.len() - 1,
            passes(walk@, threshold, n as nat, k),
    {
        let ghost before = k;
        k = k.plus(walk[n].1);
        if k.is_at_least(threshold) {
            return n;
        }
        proof {
            let m = (n + 1) as nat;
            assert(walk@[m - 1] == walk@[n as int] && (m - 1) as nat == n as nat);
            assert(call_ensures(W::plus, (before, walk@[m - 1].1), k));
        }
    }
    let ghost before = k;
    k = k.plus(walk[last].1);
    let reached = k.is_at_least(threshold);
    assert(passes(walk@, threshold, last as nat, before));
    assert(call_ensures(W::is_at_least, (k, threshold), reached));
    last
}

/// The position that a draw picks in a walk.
pub fn pick<W: Number>(walk: &Vec<(usize, W)>, total: W, draw: u64) -> (position: usize)
    requires
        walk@.len() > 0,
    ensures
        position < walk@.len(),
        picks(walk@, total, draw, position as int),
{
    let rand_prob = W::of_integer(draw as u128).over(W::of_integer(MAX_RAND as u128));
    let threshold = total.times(rand_prob);
    assert(is_threshold(total, draw, threshold));
    choose_position(walk, threshold)
}

/// The part of a walk that names testcases of the corpus.
pub open spec fn held<W>(walk: Seq<(usize, W)>, entries: Seq<Entry>) -> Seq<(usize, W)>
    decreases walk.len(),
{
    if walk.len() == 0 {
        Seq::empty()
    } else {
        let before = held(walk.drop_last(), entries);
        if scoring::names(entries, walk.last().0) {
            before.push(walk.last())
        } else {
            before
        }
    }
}

/// `left` is what was left of the total when the probabilities of what is not in the corpus were
/// taken away, one after the other.
pub open spec fn leaves<W: Number>(
    walk: Seq<(usize, W)>,
    entries: Seq<Entry>,
    total: W,
    left: W,
) -> bool
    decreases walk.len(),
{
    if walk.len() == 0 {
        left == total
    } else if scoring::names(entries, walk.last().0) {
        leaves(walk.drop_last(), entries, total, left)
    } else {
        exists|before: W|
            leaves(walk.drop_last(), entries, total, before) && #[trigger] call_ensures(
                W::minus,
                (before, walk.last().1),
                left,
            )
    }
}

/// Takes what is not in the corpus out of a walk, and its probabilities out of the total.
pub fn hold<W: Number>(walk: &Vec<(usize, W)>, entries: &Vec<Entry>, total: W) -> (part: (
    Vec<(usize, W)>,
    W,
))
    ensures
        part.0@ == held(walk@, entries@),
        leaves(walk@, entries@, total, part.1),
{
    let names = scoring::names_of(entries);
    let mut part: Vec<(usize, W)> = Vec::new();
    let mut left = total;
    assert(walk@.take(0) =~= Seq::empty());
    for n in 0..walk.len()
        invariant
            forall|key: usize| #[trigger]
                names@.contains(key) == scoring::names(entries@, key),
            part@ == held(walk@.take(n as int), entries@),
            leaves(walk@.take(n as int), entries@, total, left),
    {
        let item = walk[n];
        let ghost before = left;
        proof {
            assert(walk@.take(n + 1).drop_last() =~= walk@.take(n as int));
            assert(walk@.take(n + 1).last() == item);
            assert(names@.contains(item.0) == scoring::names(entries@, item.0));
        }
        if names.holds(item.0) {
            part.push(item);
        } else {
            left = left.minus(item.1);
        }
        assert(leaves(walk@.take(n as int), entries@, total, before));
    }
    assert(walk@.take(walk@.len() as int) =~= walk@);
    (part, left)
}

/// What is held of a walk is what it has of the testcases of the corpus, each where its value was.
pub(crate) proof fn lemma_held<W>(walk: Seq<(usize, W)>, entries: Seq<Entry>)
    ensures
        forall|i: int|
            #![trigger held(walk, entries)[i]]
            0 <= i < held(walk, entries).len() ==> walk.contains(held(walk, entries)[i])
                && scoring::names(entries, held(walk, entries)[i].0),
        forall|i: int|
            0 <= i < walk.len() && scoring::names(entries, (#[trigger] walk[i]).0) ==> held(
                walk,
                entries,
            ).contains(walk[i]),
    decreases walk.len(),
{
    if walk.len() > 0 {
        let shorter = walk.drop_last();
        let before = held(shorter, entries);
        let now = held(walk, entries);
        lemma_held(shorter, entries);
        assert forall|i: int| #![trigger now[i]] 0 <= i < now.len() implies walk.contains(now[i])
            && scoring::names(entries, now[i].0) by {
            if i < before.len() {
                assert(now[i] == before[i]);
                let j = choose|j: int| 0 <= j < shorter.len() && shorter[j] == before[i];
                assert(walk[j] == now[i]);
            } else {
                assert(walk[walk.len() - 1] == now[i]);
            }
        }
        assert forall|i: int|
            0 <= i < walk.len() && scoring::names(entries, (#[trigger] walk[i]).0) implies now.contains(
            walk[i],
        ) by {
            if i < shorter.len() {
                assert(shorter[i] == walk[i]);
                assert(before.contains(shorter[i]));
                let j = choose|j: int| 0 <= j < before.len() && before[j] == walk[i];
                assert(now[j] == walk[i]);
            } else {
                assert(now[now.len() - 1] == walk[i]);
            }
        }
    }
}

} // verus!
