//! What holds of the scheduler when it computes in numbers that do not round.

use vstd::prelude::*;

use crate::favored::RecalcReport;
use crate::model;
use crate::model::{CorpusId, Entry, ProbabilityMetadata, Reachability, State};
use crate::numbers;
use crate::numbers::Number;
use crate::ordering;
use crate::reachable;
use crate::reachable::Visit;
use crate::sampling;
use crate::scheduler;
use crate::scoring;
use crate::table;

verus! {

/// What the first `n` probabilities of a walk add up to, where nothing is rounded.
pub open spec fn share<W>(value: spec_fn(W) -> Option<real>, walk: Seq<(usize, W)>, n: nat) -> real
    decreases n,
{
    if n == 0 {
        0real
    } else {
        share(value, walk, (n - 1) as nat) + value(walk[n - 1].1)->0
    }
}

/// The first `n` probabilities of a walk stand for real numbers.
pub open spec fn are_numbers<W>(
    value: spec_fn(W) -> Option<real>,
    walk: Seq<(usize, W)>,
    n: int,
) -> bool {
    forall|i: int| 0 <= i < n ==> value((#[trigger] walk[i]).1) is Some
}

/// The total, if it stands for a real number, is what the probabilities of the walk add up to.
pub open spec fn adds_up<W>(
    value: spec_fn(W) -> Option<real>,
    walk: Seq<(usize, W)>,
    total: W,
) -> bool {
    value(total) is Some ==> {
        &&& are_numbers(value, walk, walk.len() as int)
        &&& value(total)->0 == share(value, walk, walk.len())
    }
}

/// The same probabilities add up to the same.
proof fn lemma_share_prefix<W>(
    value: spec_fn(W) -> Option<real>,
    a: Seq<(usize, W)>,
    b: Seq<(usize, W)>,
    n: nat,
)
    requires
        n <= a.len(),
        n <= b.len(),
        forall|i: int| 0 <= i < n ==> a[i] == b[i],
    ensures
        share(value, a, n) == share(value, b, n),
    decreases n,
{
    if n > 0 {
        lemma_share_prefix(value, a, b, (n - 1) as nat);
    }
}

/// One more probability adds itself.
proof fn lemma_share_push<W>(
    value: spec_fn(W) -> Option<real>,
    walk: Seq<(usize, W)>,
    item: (usize, W),
)
    ensures
        share(value, walk.push(item), walk.len() + 1) == share(value, walk, walk.len()) + value(
            item.1,
        )->0,
{
    lemma_share_prefix(value, walk, walk.push(item), walk.len());
}

/// Position `n` is the first at which the probabilities add up to the threshold, or the last one
/// where they do so nowhere, where nothing is rounded.
pub open spec fn falls_to<W>(
    value: spec_fn(W) -> Option<real>,
    walk: Seq<(usize, W)>,
    threshold: real,
    n: int,
) -> bool {
    &&& 0 <= n < walk.len()
    &&& are_numbers(value, walk, n + 1)
    &&& forall|m: int| 0 <= m < n ==> #[trigger] share(value, walk, (m + 1) as nat) < threshold
    &&& share(value, walk, (n + 1) as nat) >= threshold || n == walk.len() - 1
}

/// The part of the total that a draw stands for, where nothing is rounded.
pub open spec fn real_threshold(total: real, draw: u64) -> real {
    total * ((draw as real) / (sampling::MAX_RAND as real))
}

/// What the probabilities of what is not in the corpus add up to, where nothing is rounded.
pub open spec fn stale_share<W>(
    value: spec_fn(W) -> Option<real>,
    walk: Seq<(usize, W)>,
    entries: Seq<Entry>,
) -> real
    decreases walk.len(),
{
    if walk.len() == 0 {
        0real
    } else {
        let before = stale_share(value, walk.drop_last(), entries);
        if scoring::names(entries, walk.last().0) {
            before
        } else {
            before + value(walk.last().1)->0
        }
    }
}

/// What was added up, if it stands for a real number, is the sum.
pub proof fn sums_are_exact<W: Number>(
    value: spec_fn(W) -> Option<real>,
    walk: Seq<(usize, W)>,
    n: nat,
    k: W,
)
    requires
        numbers::exact(value),
        sampling::sums_to(walk, n, k),
        value(k) is Some,
    ensures
        are_numbers(value, walk, n as int),
        value(k)->0 == share(value, walk, n),
    decreases n,
{
    if n > 0 {
        let before = choose|before: W|
            sampling::sums_to(walk, (n - 1) as nat, before) && #[trigger] call_ensures(
                W::plus,
                (before, walk[n - 1].1),
                k,
            );
        sums_are_exact(value, walk, (n - 1) as nat, before);
    }
}

/// Whatever the first probabilities of a walk are added up to stands for a real number.
pub open spec fn sums_are_numbers<W: Number>(
    value: spec_fn(W) -> Option<real>,
    walk: Seq<(usize, W)>,
) -> bool {
    forall|n: nat, k: W|
        n <= walk.len() && #[trigger] sampling::sums_to(walk, n, k) ==> value(k) is Some
}

proof fn lemma_passes<W: Number>(
    value: spec_fn(W) -> Option<real>,
    walk: Seq<(usize, W)>,
    threshold: W,
    n: nat,
    k: W,
)
    requires
        numbers::exact(value),
        sums_are_numbers(value, walk),
        value(threshold) is Some,
        n <= walk.len(),
        sampling::passes(walk, threshold, n, k),
    ensures
        sampling::sums_to(walk, n, k),
        forall|m: int|
            0 <= m < n ==> #[trigger] share(value, walk, (m + 1) as nat) < value(threshold)->0,
    decreases n,
{
    if n > 0 {
        let before = choose|before: W|
            {
                &&& sampling::passes(walk, threshold, (n - 1) as nat, before)
                &&& #[trigger] call_ensures(W::plus, (before, walk[n - 1].1), k)
                &&& call_ensures(W::is_at_least, (k, threshold), false)
            };
        lemma_passes(value, walk, threshold, (n - 1) as nat, before);
        assert(sampling::sums_to(walk, n, k));
        sums_are_exact(value, walk, n, k);
        assert forall|m: int| 0 <= m < n implies #[trigger] share(value, walk, (m + 1) as nat)
            < value(threshold)->0 by {
            if m == n - 1 {
                assert((m + 1) as nat == n);
            }
        }
    }
}

/// The position that is chosen is the one to which the threshold falls in real numbers.
pub proof fn choices_are_exact<W: Number>(
    value: spec_fn(W) -> Option<real>,
    walk: Seq<(usize, W)>,
    threshold: W,
    n: int,
)
    requires
        numbers::exact(value),
        sums_are_numbers(value, walk),
        value(threshold) is Some,
        sampling::is_choice(walk, threshold, n),
    ensures
        falls_to(value, walk, value(threshold)->0, n),
{
    let (before, k) = choose|before: W, k: W|
        {
            &&& sampling::passes(walk, threshold, n as nat, before)
            &&& #[trigger] call_ensures(W::plus, (before, walk[n].1), k)
            &&& call_ensures(W::is_at_least, (k, threshold), true) || (n == walk.len() - 1
                && call_ensures(W::is_at_least, (k, threshold), false))
        };
    lemma_passes(value, walk, threshold, n as nat, before);
    sampling::lemma_sums_step(walk, n as nat, before, k);
    assert(sampling::sums_to(walk, (n + 1) as nat, k));
    sums_are_exact(value, walk, (n + 1) as nat, k);
}

/// What is left of a total, if it stands for a real number, is the difference.
pub proof fn what_is_left_is_exact<W: Number>(
    value: spec_fn(W) -> Option<real>,
    walk: Seq<(usize, W)>,
    entries: Seq<Entry>,
    total: W,
    left: W,
)
    requires
        numbers::exact(value),
        sampling::leaves(walk, entries, total, left),
        value(left) is Some,
    ensures
        value(total) is Some,
        value(left)->0 == value(total)->0 - stale_share(value, walk, entries),
    decreases walk.len(),
{
    if walk.len() > 0 {
        let shorter = walk.drop_last();
        if scoring::names(entries, walk.last().0) {
            what_is_left_is_exact(value, shorter, entries, total, left);
        } else {
            let before = choose|before: W|
                sampling::leaves(shorter, entries, total, before) && #[trigger] call_ensures(
                    W::minus,
                    (before, walk.last().1),
                    left,
                );
            what_is_left_is_exact(value, shorter, entries, total, before);
        }
    }
}

/// Whatever is computed when a draw picks a testcase stands for a real number.
pub open spec fn picks_in_numbers<W: Number>(
    value: spec_fn(W) -> Option<real>,
    metadata: ProbabilityMetadata<W>,
    entries: Seq<Entry>,
    draw: u64,
) -> bool {
    let order = metadata.map.order();
    &&& forall|total: W, threshold: W|
        sampling::leaves(order, entries, metadata.total_probability, total)
            && #[trigger] sampling::is_threshold(total, draw, threshold) ==> value(
            threshold,
        ) is Some
    &&& sums_are_numbers(value, sampling::held(order, entries))
}

/// The testcase that a draw picks is the one to which its part of the total of the testcases of
/// the corpus falls in real numbers.
pub proof fn samples_are_exact<W: Number>(
    value: spec_fn(W) -> Option<real>,
    metadata: ProbabilityMetadata<W>,
    entries: Seq<Entry>,
    draw: u64,
    id: CorpusId,
)
    requires
        numbers::exact(value),
        picks_in_numbers(value, metadata, entries, draw),
        scheduler::sampled(metadata, entries, draw, id),
    ensures
        value(metadata.total_probability) is Some,
        exists|n: int|
            {
                &&& #[trigger] falls_to(
                    value,
                    sampling::held(metadata.map.order(), entries),
                    real_threshold(
                        value(metadata.total_probability)->0 - stale_share(
                            value,
                            metadata.map.order(),
                            entries,
                        ),
                        draw,
                    ),
                    n,
                )
                &&& sampling::held(metadata.map.order(), entries)[n].0 == id.0
            },
{
    let order = metadata.map.order();
    let held = sampling::held(order, entries);
    let all = metadata.total_probability;
    let (total, n) = choose|total: W, n: int|
        {
            &&& #[trigger] sampling::leaves(order, entries, all, total)
            &&& #[trigger] sampling::picks(held, total, draw, n)
            &&& 0 <= n < held.len()
            &&& held[n].0 == id.0
        };
    let threshold = choose|threshold: W| #[trigger]
        sampling::is_threshold(total, draw, threshold) && sampling::is_choice(
            held,
            threshold,
            n,
        );
    choices_are_exact(value, held, threshold, n);
    lemma_threshold_exact(value, total, draw, threshold);
    what_is_left_is_exact(value, order, entries, all, total);
}

proof fn lemma_threshold_exact<W: Number>(
    value: spec_fn(W) -> Option<real>,
    total: W,
    draw: u64,
    threshold: W,
)
    requires
        numbers::exact(value),
        sampling::is_threshold(total, draw, threshold),
        value(threshold) is Some,
    ensures
        value(total) is Some,
        value(threshold)->0 == real_threshold(value(total)->0, draw),
{
    let (drawn, most, rand_prob) = choose|drawn: W, most: W, rand_prob: W|
        {
            &&& call_ensures(W::of_integer, (draw as u128,), drawn)
            &&& call_ensures(W::of_integer, (sampling::MAX_RAND as u128,), most)
            &&& #[trigger] call_ensures(W::over, (drawn, most), rand_prob)
            &&& #[trigger] call_ensures(W::times, (total, rand_prob), threshold)
        };
    assert(value(rand_prob)->0 == (draw as real) / (sampling::MAX_RAND as real));
}

/// No probability is negative, and all stand for real numbers.
pub open spec fn no_negative<W>(
    value: spec_fn(W) -> Option<real>,
    walk: Seq<(usize, W)>,
) -> bool {
    forall|i: int|
        0 <= i < walk.len() ==> value((#[trigger] walk[i]).1) is Some && value(walk[i].1)->0
            >= 0real
}

pub(crate) proof fn lemma_shares_grow<W>(
    value: spec_fn(W) -> Option<real>,
    walk: Seq<(usize, W)>,
    m: nat,
    n: nat,
)
    requires
        no_negative(value, walk),
        m <= n <= walk.len(),
    ensures
        share(value, walk, m) <= share(value, walk, n),
    decreases n,
{
    if m < n {
        lemma_shares_grow(value, walk, m, (n - 1) as nat);
        assert(value(walk[n - 1].1)->0 >= 0real);
    }
}

/// A testcase is picked exactly when the threshold falls into its share: above what stands before
/// it in the walk, and not above that with its own probability added. The first testcase also gets
/// what is not above zero, and the last one what is above everything.
pub proof fn a_testcase_is_picked_for_its_share<W>(
    value: spec_fn(W) -> Option<real>,
    walk: Seq<(usize, W)>,
    threshold: real,
    n: int,
)
    requires
        no_negative(value, walk),
        0 <= n < walk.len(),
    ensures
        falls_to(value, walk, threshold, n) <==> {
            &&& n == 0 || share(value, walk, n as nat) < threshold
            &&& n == walk.len() - 1 || threshold <= share(value, walk, (n + 1) as nat)
        },
{
    if n > 0 {
        assert(share(value, walk, ((n - 1) + 1) as nat) == share(
            value,
            walk,
            n as nat,
        ));
        assert forall|m: int|
            0 <= m < n && share(value, walk, n as nat)
                < threshold implies #[trigger] share(value, walk, (m + 1) as nat)
            < threshold by {
            lemma_shares_grow(value, walk, (m + 1) as nat, n as nat);
        }
    }
}

/// How many draws below `k` pick position `n` of the walk.
pub open spec fn draws_for<W>(
    value: spec_fn(W) -> Option<real>,
    walk: Seq<(usize, W)>,
    total: real,
    n: int,
    k: nat,
) -> nat
    decreases k,
{
    if k == 0 {
        0
    } else {
        draws_for(value, walk, total, n, (k - 1) as nat) + if falls_to(
            value,
            walk,
            real_threshold(total, (k - 1) as u64),
            n,
        ) {
            1nat
        } else {
            0
        }
    }
}

/// How many draws below `k` stand for no more than `share` of the total.
pub open spec fn draws_up_to(total: real, share: real, k: nat) -> nat
    decreases k,
{
    if k == 0 {
        0
    } else {
        draws_up_to(total, share, (k - 1) as nat) + if real_threshold(
            total,
            (k - 1) as u64,
        ) <= share {
            1nat
        } else {
            0
        }
    }
}

/// The draws that stand for no more than `share` are the first ones.
proof fn lemma_draws_up_to(total: real, share: real, k: nat)
    requires
        total > 0real,
        0real <= share <= total,
        k <= sampling::MAX_RAND,
    ensures
        ({
            let c = draws_up_to(total, share, k);
            let max = sampling::MAX_RAND as real;
            &&& c <= k
            &&& k > 0 ==> c > 0 && total * (c as real - 1real) <= share * max
            &&& c < k ==> share * max < total * (c as real)
        }),
    decreases k,
{
    if k > 0 {
        let before = (k - 1) as nat;
        lemma_draws_up_to(total, share, before);
        let b = draws_up_to(total, share, before);
        let c = draws_up_to(total, share, k);
        let d = before as u64;
        let max = sampling::MAX_RAND as real;
        let t = real_threshold(total, d);
        assert(t * max == total * (d as real)) by (nonlinear_arith)
            requires
                t == total * ((d as real) / max),
                max == 1000000real,
        ;
        assert((t <= share) == (t * max <= share * max)) by (nonlinear_arith)
            requires
                max == 1000000real,
        ;
        if before == 0 {
            assert(d as real == 0real);
            assert(total * 0real == 0real);
            assert(share * max >= 0real) by (nonlinear_arith)
                requires
                    share >= 0real,
                    max == 1000000real,
            ;
            assert(c == 1);
            assert(total * (c as real - 1real) == 0real) by (nonlinear_arith)
                requires
                    c as real == 1real,
            ;
        } else if b < before {
            assert(share * max < total * (d as real)) by (nonlinear_arith)
                requires
                    share * max < total * (b as real),
                    (b as real) <= (d as real),
                    total > 0real,
            ;
            assert(c == b);
        } else if t <= share {
            assert(c == before + 1);
            assert(c as real - 1real == d as real);
        } else {
            assert(c == b && c as real == d as real);
        }
    }
}

/// The number of draws up to a share is that share of all draws, up to one draw.
pub(crate) proof fn lemma_all_draws_up_to(total: real, share: real)
    requires
        total > 0real,
        0real <= share <= total,
    ensures
        ({
            let c = draws_up_to(total, share, sampling::MAX_RAND as nat) as real;
            let max = sampling::MAX_RAND as real;
            &&& share * max <= total * c
            &&& total * c <= share * max + total
        }),
{
    let k = sampling::MAX_RAND as nat;
    let max = sampling::MAX_RAND as real;
    lemma_draws_up_to(total, share, k);
    let c = draws_up_to(total, share, k);
    assert(total * (c as real) == total * (c as real - 1real) + total) by (nonlinear_arith);
    if c == k {
        assert(share * max <= total * max) by (nonlinear_arith)
            requires
                share <= total,
                max == 1000000real,
        ;
    }
}

/// The draws that pick a position are those up to its share, without those up to what stands
/// before it.
proof fn lemma_draws_for<W>(
    value: spec_fn(W) -> Option<real>,
    walk: Seq<(usize, W)>,
    total: real,
    n: int,
    k: nat,
)
    requires
        no_negative(value, walk),
        0 <= n < walk.len(),
    ensures
        draws_for(value, walk, total, n, k) == (if n == walk.len() - 1 {
            k as int
        } else {
            draws_up_to(total, share(value, walk, (n + 1) as nat), k) as int
        }) - (if n == 0 {
            0int
        } else {
            draws_up_to(total, share(value, walk, n as nat), k) as int
        }),
    decreases k,
{
    if k > 0 {
        lemma_draws_for(value, walk, total, n, (k - 1) as nat);
        let t = real_threshold(total, (k - 1) as u64);
        a_testcase_is_picked_for_its_share(value, walk, t, n);
        lemma_shares_grow(value, walk, n as nat, (n + 1) as nat);
    }
}

/// Testcases are sampled in proportion: of all draws, each testcase of a walk is picked by as many
/// as its probability is of the total, up to one draw.
pub proof fn testcases_are_picked_in_proportion<W>(
    value: spec_fn(W) -> Option<real>,
    walk: Seq<(usize, W)>,
    total: real,
    n: int,
)
    requires
        no_negative(value, walk),
        total == share(value, walk, walk.len()),
        total > 0real,
        0 <= n < walk.len(),
    ensures
        ({
            let draws = draws_for(value, walk, total, n, sampling::MAX_RAND as nat) as real;
            let due = value(walk[n].1)->0 * (sampling::MAX_RAND as real);
            due - total <= draws * total <= due + total
        }),
{
    let k = sampling::MAX_RAND as nat;
    let max = sampling::MAX_RAND as real;
    let low = share(value, walk, n as nat);
    let high = share(value, walk, (n + 1) as nat);
    let p = value(walk[n].1)->0;
    lemma_shares_grow(value, walk, 0, n as nat);
    lemma_shares_grow(value, walk, n as nat, (n + 1) as nat);
    lemma_shares_grow(value, walk, (n + 1) as nat, walk.len());
    lemma_draws_for(value, walk, total, n, k);
    lemma_all_draws_up_to(total, low);
    lemma_all_draws_up_to(total, high);
    let a = draws_up_to(total, low, k) as real;
    let b = draws_up_to(total, high, k) as real;
    let draws = draws_for(value, walk, total, n, k) as real;
    let from = if n == 0 {
        0real
    } else {
        a
    };
    let to = if n == walk.len() - 1 {
        max
    } else {
        b
    };
    assert(draws == to - from);
    assert(draws * total == total * to - total * from) by (nonlinear_arith)
        requires
            draws == to - from,
    ;
    assert(p * max == high * max - low * max) by (nonlinear_arith)
        requires
            p == high - low,
    ;
    if n == 0 {
        assert(low * max == 0real) by (nonlinear_arith)
            requires
                low == 0real,
        ;
        assert(total * from == 0real) by (nonlinear_arith)
            requires
                from == 0real,
        ;
    }
    if n == walk.len() - 1 {
        assert(high * max == total * to);
    }
}

/// What a walk adds up to is what its testcases of the corpus add up to, and the rest.
pub proof fn what_is_held_adds_up<W>(
    value: spec_fn(W) -> Option<real>,
    walk: Seq<(usize, W)>,
    entries: Seq<Entry>,
)
    ensures
        share(value, walk, walk.len()) == share(
            value,
            sampling::held(walk, entries),
            sampling::held(walk, entries).len(),
        ) + stale_share(value, walk, entries),
    decreases walk.len(),
{
    if walk.len() > 0 {
        let shorter = walk.drop_last();
        let before = sampling::held(shorter, entries);
        what_is_held_adds_up(value, shorter, entries);
        lemma_share_prefix(value, shorter, walk, shorter.len());
        if scoring::names(entries, walk.last().0) {
            lemma_share_push(value, before, walk.last());
        }
    }
}

/// Testcases are sampled over all corpus elements in proportion: where the total is that of the
/// table, each testcase of the corpus is picked by as many of all draws as its probability is of
/// what the testcases of the corpus add up to, up to one draw.
pub proof fn corpus_elements_are_sampled_in_proportion<W: Number>(
    value: spec_fn(W) -> Option<real>,
    order: Seq<(usize, W)>,
    total: W,
    entries: Seq<Entry>,
    n: int,
)
    requires
        value(total) is Some,
        adds_up(value, order, total),
        no_negative(value, sampling::held(order, entries)),
        value(total)->0 > stale_share(value, order, entries),
        0 <= n < sampling::held(order, entries).len(),
    ensures
        ({
            let part = value(total)->0 - stale_share(value, order, entries);
            let held = sampling::held(order, entries);
            let draws = draws_for(value, held, part, n, sampling::MAX_RAND as nat) as real;
            let due = value(held[n].1)->0 * (sampling::MAX_RAND as real);
            due - part <= draws * part <= due + part
        }),
{
    let part = value(total)->0 - stale_share(value, order, entries);
    what_is_held_adds_up(value, order, entries);
    testcases_are_picked_in_proportion(value, sampling::held(order, entries), part, n);
}

/// A threshold falls to no more than one position.
proof fn lemma_falls_to_one<W>(
    value: spec_fn(W) -> Option<real>,
    walk: Seq<(usize, W)>,
    threshold: real,
    m: int,
    n: int,
)
    requires
        falls_to(value, walk, threshold, m),
        falls_to(value, walk, threshold, n),
    ensures
        m == n,
{
    if m < n {
        assert(share(value, walk, (m + 1) as nat) < threshold);
    }
    if n < m {
        assert(share(value, walk, (n + 1) as nat) < threshold);
    }
}

/// The keys of what is held are distinct, where those of the walk are.
pub(crate) proof fn lemma_held_distinct<W>(walk: Seq<(usize, W)>, entries: Seq<Entry>)
    requires
        forall|i: int, j: int|
            0 <= i < j < walk.len() ==> (#[trigger] walk[i]).0 != (#[trigger] walk[j]).0,
    ensures
        forall|i: int, j: int|
            0 <= i < j < sampling::held(walk, entries).len() ==> (
            #[trigger] sampling::held(walk, entries)[i]).0 != (
            #[trigger] sampling::held(walk, entries)[j]).0,
    decreases walk.len(),
{
    if walk.len() > 0 {
        let shorter = walk.drop_last();
        let before = sampling::held(shorter, entries);
        let now = sampling::held(walk, entries);
        assert forall|i: int, j: int| 0 <= i < j < shorter.len() implies (
        #[trigger] shorter[i]).0 != (#[trigger] shorter[j]).0 by {
            assert(shorter[i] == walk[i] && shorter[j] == walk[j]);
        }
        lemma_held_distinct(shorter, entries);
        sampling::lemma_held(shorter, entries);
        assert forall|i: int, j: int| 0 <= i < j < now.len() implies (#[trigger] now[i]).0 != (
        #[trigger] now[j]).0 by {
            assert(now[i] == before[i]);
            if j < before.len() {
                assert(now[j] == before[j]);
            } else {
                assert(shorter.contains(before[i]));
                let k = choose|k: int| 0 <= k < shorter.len() && shorter[k] == before[i];
                assert(walk[k] == now[i]);
                assert(walk[walk.len() - 1] == now[j]);
            }
        }
    }
}

/// How many of the first `k` testcases are the given one.
pub open spec fn times_scheduled(ids: Seq<CorpusId>, id: CorpusId, k: nat) -> nat
    decreases k,
{
    if k == 0 {
        0
    } else {
        times_scheduled(ids, id, (k - 1) as nat) + if ids[k - 1] == id {
            1nat
        } else {
            0
        }
    }
}

/// The draw picks the testcase, and what is computed stands for real numbers.
spec fn is_sample<W: Number>(
    value: spec_fn(W) -> Option<real>,
    metadata: ProbabilityMetadata<W>,
    entries: Seq<Entry>,
    draw: u64,
    id: CorpusId,
) -> bool {
    &&& picks_in_numbers(value, metadata, entries, draw)
    &&& scheduler::sampled(metadata, entries, draw, id)
}

/// Each draw picks the testcase `ids[draw]`.
spec fn are_samples<W: Number>(
    value: spec_fn(W) -> Option<real>,
    metadata: ProbabilityMetadata<W>,
    entries: Seq<Entry>,
    ids: Seq<CorpusId>,
) -> bool {
    forall|draw: int|
        0 <= draw < ids.len() ==> is_sample(
            value,
            metadata,
            entries,
            draw as u64,
            #[trigger] ids[draw],
        )
}

proof fn lemma_times_scheduled<W: Number>(
    value: spec_fn(W) -> Option<real>,
    metadata: ProbabilityMetadata<W>,
    entries: Seq<Entry>,
    ids: Seq<CorpusId>,
    n: int,
    k: nat,
)
    requires
        numbers::exact(value),
        metadata.wf(),
        are_samples(value, metadata, entries, ids),
        0 <= n < sampling::held(metadata.map.order(), entries).len(),
        k <= ids.len() <= sampling::MAX_RAND,
    ensures
        times_scheduled(ids, CorpusId(sampling::held(metadata.map.order(), entries)[n].0), k)
            == draws_for(
            value,
            sampling::held(metadata.map.order(), entries),
            value(metadata.total_probability)->0 - stale_share(
                value,
                metadata.map.order(),
                entries,
            ),
            n,
            k,
        ),
    decreases k,
{
    if k > 0 {
        lemma_times_scheduled(value, metadata, entries, ids, n, (k - 1) as nat);
        let order = metadata.map.order();
        let held = sampling::held(order, entries);
        let draw = (k - 1) as u64;
        let id = ids[k - 1];
        assert(is_sample(value, metadata, entries, draw, id));
        let part = value(metadata.total_probability)->0 - stale_share(value, order, entries);
        let threshold = real_threshold(part, draw);
        samples_are_exact(value, metadata, entries, draw, id);
        let m = choose|m: int| #[trigger]
            falls_to(value, held, threshold, m) && held[m].0 == id.0;
        metadata.map.lemma_order();
        lemma_held_distinct(order, entries);
        if falls_to(value, held, threshold, n) {
            lemma_falls_to_one(value, held, threshold, m, n);
        } else {
            assert(m != n);
            if m < n {
                assert(held[m].0 != held[n].0);
            } else {
                assert(held[n].0 != held[m].0);
            }
        }
    }
}

/// Where a testcase is scheduled from the same state once for each draw, and no recalculation is
/// due, each testcase of the corpus that has a probability is scheduled in proportion: as often as
/// its probability is of what the testcases of the corpus add up to, up to one time.
pub proof fn testcases_are_scheduled_in_proportion<
    W: Number,
    C: FnOnce(RecalcReport) -> (u128, u128),
>(
    value: spec_fn(W) -> Option<real>,
    before: State<W>,
    after: Seq<State<W>>,
    now: u128,
    finished: C,
    ids: Seq<CorpusId>,
    id: CorpusId,
)
    requires
        numbers::exact(value),
        before.wf(),
        before.metadata is Some,
        !scheduler::will_recalc(before, now),
        ids.len() == sampling::MAX_RAND,
        after.len() == ids.len(),
        forall|draw: int|
            0 <= draw < ids.len() ==> picks_in_numbers(
                value,
                before.metadata->0,
                before.corpus.entries@,
                draw as u64,
            ) && scheduler::scheduled(
                before,
                after[draw],
                draw as u64,
                now,
                finished,
                #[trigger] ids[draw],
            ),
        value(before.metadata->0.total_probability) is Some,
        adds_up(value, before.metadata->0.map.order(), before.metadata->0.total_probability),
        no_negative(
            value,
            sampling::held(before.metadata->0.map.order(), before.corpus.entries@),
        ),
        value(before.metadata->0.total_probability)->0 > stale_share(
            value,
            before.metadata->0.map.order(),
            before.corpus.entries@,
        ),
        before.corpus.holds(id),
        before.metadata->0.map@.dom().contains(id.0),
    ensures
        ({
            let metadata = before.metadata->0;
            let part = value(metadata.total_probability)->0 - stale_share(
                value,
                metadata.map.order(),
                before.corpus.entries@,
            );
            let times = times_scheduled(ids, id, ids.len()) as real;
            let due = value(metadata.map@[id.0])->0 * (sampling::MAX_RAND as real);
            due - part <= times * part <= due + part
        }),
{
    let metadata = before.metadata->0;
    let entries = before.corpus.entries@;
    let order = metadata.map.order();
    let held = sampling::held(order, entries);
    assert forall|draw: int| 0 <= draw < ids.len() implies is_sample(
        value,
        metadata,
        entries,
        draw as u64,
        #[trigger] ids[draw],
    ) by {
        assert(scheduler::scheduled(
            before,
            after[draw],
            draw as u64,
            now,
            finished,
            ids[draw],
        ));
    }
    metadata.map.lemma_order();
    sampling::lemma_held(order, entries);
    let k = choose|k: int| 0 <= k < entries.len() && model::ids_of(entries)[k] == id;
    assert(entries[k].id.0 == id.0);
    assert(scoring::names(entries, id.0));
    let i = choose|i: int| 0 <= i < order.len() && (#[trigger] order[i]).0 == id.0;
    assert(held.contains(order[i]));
    let n = choose|n: int| 0 <= n < held.len() && held[n] == order[i];
    lemma_times_scheduled(value, metadata, entries, ids, n, ids.len());
    corpus_elements_are_sampled_in_proportion(
        value,
        order,
        metadata.total_probability,
        entries,
        n,
    );
}

proof fn lemma_share_remove<W>(
    value: spec_fn(W) -> Option<real>,
    walk: Seq<(usize, W)>,
    p: int,
    n: nat,
)
    requires
        0 <= p < n <= walk.len(),
    ensures
        share(value, walk, n) == share(
            value,
            walk.remove(p),
            (n - 1) as nat,
        ) + value(walk[p].1)->0,
    decreases n,
{
    let rest = walk.remove(p);
    if n == p + 1 {
        lemma_share_prefix(value, walk, rest, p as nat);
    } else {
        lemma_share_remove(value, walk, p, (n - 1) as nat);
        assert(rest[n - 2] == walk[n - 1]);
    }
}

proof fn lemma_walk_remove<W>(walk: Seq<(usize, W)>, map: Map<usize, W>, p: int)
    requires
        table::is_walk(walk, map),
        0 <= p < walk.len(),
    ensures
        table::is_walk(walk.remove(p), map.remove(walk[p].0)),
{
    let rest = walk.remove(p);
    let left = map.remove(walk[p].0);
    assert forall|i: int| 0 <= i < rest.len() implies left.dom().contains((#[trigger] rest[i]).0)
        && left[rest[i].0] == rest[i].1 by {
        let j = if i < p {
            i
        } else {
            i + 1
        };
        assert(rest[i] == walk[j]);
        assert(walk[j].0 != walk[p].0);
    }
    assert forall|i: int, j: int| 0 <= i < j < rest.len() implies (#[trigger] rest[i]).0 != (
    #[trigger] rest[j]).0 by {
        let i2 = if i < p {
            i
        } else {
            i + 1
        };
        let j2 = if j < p {
            j
        } else {
            j + 1
        };
        assert(rest[i] == walk[i2] && rest[j] == walk[j2]);
    }
    assert forall|key: usize| #[trigger] left.dom().contains(key) implies exists|i: int|
        0 <= i < rest.len() && (#[trigger] rest[i]).0 == key by {
        assert(map.dom().contains(key));
        let j = choose|j: int| 0 <= j < walk.len() && (#[trigger] walk[j]).0 == key;
        assert(j != p);
        let i = if j < p {
            j
        } else {
            j - 1
        };
        assert(rest[i] == walk[j]);
    }
}

/// The probabilities of a map add up to the same in whatever order it is walked.
pub proof fn every_walk_has_the_same_total<W>(
    value: spec_fn(W) -> Option<real>,
    map: Map<usize, W>,
    a: Seq<(usize, W)>,
    b: Seq<(usize, W)>,
)
    requires
        table::is_walk(a, map),
        table::is_walk(b, map),
    ensures
        a.len() == b.len(),
        share(value, a, a.len()) == share(value, b, b.len()),
    decreases a.len(),
{
    if a.len() == 0 {
        if b.len() > 0 {
            assert(map.dom().contains(b[0].0));
        }
    } else {
        let last = a.len() - 1;
        let key = a[last].0;
        assert(map.dom().contains(key));
        let p = choose|p: int| 0 <= p < b.len() && (#[trigger] b[p]).0 == key;
        assert(b[p] == a[last]);
        lemma_walk_remove(a, map, last);
        lemma_walk_remove(b, map, p);
        every_walk_has_the_same_total(value, map.remove(key), a.remove(last), b.remove(p));
        lemma_share_remove(value, a, last, a.len());
        lemma_share_remove(value, b, p, b.len());
    }
}

/// The total, if it stands for a real number, is that of all items in the map.
pub open spec fn totals<W>(
    value: spec_fn(W) -> Option<real>,
    map: Map<usize, W>,
    total: W,
) -> bool {
    exists|walk: Seq<(usize, W)>| #[trigger]
        table::is_walk(walk, map) && adds_up(value, walk, total)
}

/// New metadata has the total of its map.
pub proof fn new_metadata_totals<W: Number>(
    value: spec_fn(W) -> Option<real>,
    metadata: ProbabilityMetadata<W>,
)
    requires
        numbers::exact(value),
        metadata.is_new(),
    ensures
        totals(value, metadata.map@, metadata.total_probability),
{
    let walk = Seq::<(usize, W)>::empty();
    assert(table::is_walk(walk, metadata.map@));
    assert(adds_up(value, walk, metadata.total_probability));
}

/// The walk after a key got a value is one of the map after that.
proof fn lemma_inserted<W>(walk: Seq<(usize, W)>, map: Map<usize, W>, key: usize, item: W)
    requires
        table::is_walk(walk, map),
    ensures
        table::has_key(walk, key) == map.dom().contains(key),
        table::is_walk(table::inserted(walk, key, item), map.insert(key, item)),
{
    let longer = table::inserted(walk, key, item);
    let after = map.insert(key, item);
    assert(table::has_key(walk, key) == map.dom().contains(key)) by {
        if table::has_key(walk, key) {
            let i = choose|i: int| 0 <= i < walk.len() && (#[trigger] walk[i]).0 == key;
            assert(map.dom().contains(walk[i].0));
        }
    }
    assert forall|i: int| 0 <= i < walk.len() implies (#[trigger] longer[i]).0 == walk[i].0 by {}
    assert forall|k: usize| #[trigger] after.dom().contains(k) implies exists|i: int|
        0 <= i < longer.len() && (#[trigger] longer[i]).0 == k by {
        if map.dom().contains(k) {
            let i = choose|i: int| 0 <= i < walk.len() && (#[trigger] walk[i]).0 == k;
            assert(longer[i].0 == k);
        } else {
            assert(longer[walk.len() as int].0 == k);
        }
    }
    assert forall|i: int| 0 <= i < longer.len() implies after.dom().contains(
        (#[trigger] longer[i]).0,
    ) && after[longer[i].0] == longer[i].1 by {
        if i < walk.len() {
            assert(map.dom().contains(walk[i].0));
        }
    }
    assert forall|i: int, j: int| 0 <= i < j < longer.len() implies (#[trigger] longer[i]).0 != (
    #[trigger] longer[j]).0 by {
        assert(longer[i].0 == walk[i].0);
        assert(map.dom().contains(walk[i].0));
        if j < walk.len() {
            assert(longer[j].0 == walk[j].0);
        }
    }
}

/// The total, if it stands for a real number, changes by what the probability changes.
proof fn lemma_total_with<W: Number>(
    value: spec_fn(W) -> Option<real>,
    before: ProbabilityMetadata<W>,
    id: CorpusId,
    probability: W,
    total: W,
)
    requires
        numbers::exact(value),
        scheduler::is_total_with(before, id, probability, total),
        value(total) is Some,
    ensures
        value(before.total_probability) is Some,
        value(probability) is Some,
        before.map@.dom().contains(id.0) ==> value(before.map@[id.0]) is Some,
        value(total)->0 == value(before.total_probability)->0 - (if before.map@.dom().contains(
            id.0,
        ) {
            value(before.map@[id.0])->0
        } else {
            0real
        }) + value(probability)->0,
{
}

/// What a walk adds up to after the value of the key at position `p` was replaced.
proof fn lemma_share_replaced<W>(
    value: spec_fn(W) -> Option<real>,
    a: Seq<(usize, W)>,
    b: Seq<(usize, W)>,
    p: int,
    n: nat,
)
    requires
        0 <= p < a.len(),
        a.len() == b.len(),
        n <= a.len(),
        forall|i: int| 0 <= i < a.len() && i != p ==> a[i] == b[i],
    ensures
        share(value, b, n) == share(value, a, n) + (if p < n {
            value(b[p].1)->0 - value(a[p].1)->0
        } else {
            0real
        }),
    decreases n,
{
    if n > 0 {
        lemma_share_replaced(value, a, b, p, (n - 1) as nat);
    }
}

/// A testcase that gets a probability keeps the total that of all items in the map, whether it had
/// one before or not.
pub proof fn adding_keeps_the_total<W: Number>(
    value: spec_fn(W) -> Option<real>,
    before: ProbabilityMetadata<W>,
    after: ProbabilityMetadata<W>,
    id: CorpusId,
    probability: W,
)
    requires
        numbers::exact(value),
        scheduler::gained(before, after, id, probability),
        totals(value, before.map@, before.total_probability),
    ensures
        totals(value, after.map@, after.total_probability),
{
    let walk = choose|walk: Seq<(usize, W)>| #[trigger]
        table::is_walk(walk, before.map@) && adds_up(
            value,
            walk,
            before.total_probability,
        );
    let key = id.0;
    let longer = table::inserted(walk, key, probability);
    lemma_inserted(walk, before.map@, key, probability);
    if value(after.total_probability) is Some {
        lemma_total_with(value, before, id, probability, after.total_probability);
        assert forall|i: int| 0 <= i < longer.len() implies value(
            (#[trigger] longer[i]).1,
        ) is Some by {
            if i < walk.len() {
                assert(value(walk[i].1) is Some);
            }
        }
        if table::has_key(walk, key) {
            let p = choose|p: int| 0 <= p < walk.len() && (#[trigger] walk[p]).0 == key;
            assert(before.map@[key] == walk[p].1);
            assert forall|i: int| 0 <= i < walk.len() && i != p implies walk[i] == longer[i] by {
                if i < p {
                    assert(walk[i].0 != walk[p].0);
                } else {
                    assert(walk[p].0 != walk[i].0);
                }
            }
            lemma_share_replaced(value, walk, longer, p, walk.len());
        } else {
            lemma_share_push(value, walk, (key, probability));
        }
    }
    assert(adds_up(value, longer, after.total_probability));
}

/// After a recalculation the total is that of all items in the map.
pub proof fn a_recalculation_totals<W: Number>(
    value: spec_fn(W) -> Option<real>,
    map: Map<usize, W>,
    order: Seq<(usize, W)>,
    total: W,
    entries: Seq<Entry>,
)
    requires
        numbers::exact(value),
        table::is_walk(order, map),
        scoring::rescored(map, order, total, entries),
    ensures
        totals(value, map, total),
{
    if value(total) is Some {
        sums_are_exact(value, order, order.len(), total);
    }
    assert(adds_up(value, order, total));
}

/// The weight of a direct neighbour, where nothing is rounded.
pub open spec fn real_backoff(mutations: nat) -> real {
    numbers::real_power(
        (scoring::BACKOFF_TEN_THOUSANDTHS as real) / (scoring::TEN_THOUSAND as real),
        mutations / (scoring::MUTATIONS_PER_DECREMENT as nat),
    )
}

/// The mutations of the direct neighbours are few enough for the exponent of their weight.
pub open spec fn weights_fit(visits: Seq<Visit>) -> bool {
    forall|index: usize| #[trigger]
        reachable::direct_mutations(visits, index) / (scoring::MUTATIONS_PER_DECREMENT as nat) <= i32::MAX
}

/// What a reachability adds to the score of a testcase, where nothing is rounded.
pub open spec fn real_term(r: Reachability, visits: Seq<Visit>) -> real {
    real_backoff(reachable::direct_mutations(visits, r.direct_neighbour_ancestor_index)) * (1real
        / (reachable::frequency(visits, r) as real)) / (r.depth as real)
}

/// What the reachabilities of a testcase add up to, where nothing is rounded.
pub open spec fn real_neighbour_score(list: Seq<Reachability>, visits: Seq<Visit>) -> real
    decreases list.len(),
{
    if list.len() == 0 {
        0real
    } else {
        real_neighbour_score(list.drop_last(), visits) + real_term(list.last(), visits)
    }
}

/// The score of a testcase, where nothing is rounded.
pub open spec fn real_score(entries: Seq<Entry>, k: int) -> real {
    real_neighbour_score(entries[k].testcase.reachabilities@, reachable::visits(entries)) * ((
    scoring::min_time(entries) as real) / (scoring::time_of(entries[k]) as real))
}

/// The sum of the scores of the first `n` testcases, where nothing is rounded.
pub open spec fn real_total(entries: Seq<Entry>, n: nat) -> real
    decreases n,
{
    if n == 0 {
        0real
    } else {
        real_total(entries, (n - 1) as nat) + real_score(entries, n - 1)
    }
}

proof fn lemma_weight<W: Number>(value: spec_fn(W) -> Option<real>, mutations: usize, weight: W)
    requires
        numbers::exact(value),
        scoring::is_weight(mutations, weight),
        value(weight) is Some,
        mutations / scoring::MUTATIONS_PER_DECREMENT <= i32::MAX,
    ensures
        value(weight)->0 == real_backoff(mutations as nat),
{
    let exponent = (mutations / scoring::MUTATIONS_PER_DECREMENT) as i32;
    let (numerator, denominator, base) = choose|numerator: W, denominator: W, base: W|
        {
            &&& call_ensures(W::of_integer, (scoring::BACKOFF_TEN_THOUSANDTHS,), numerator)
            &&& call_ensures(W::of_integer, (scoring::TEN_THOUSAND,), denominator)
            &&& #[trigger] call_ensures(W::over, (numerator, denominator), base)
            &&& #[trigger] call_ensures(W::to_the, (base, exponent), weight)
        };
    assert(exponent == mutations as nat / scoring::MUTATIONS_PER_DECREMENT as nat);
    assert(value(base)->0 == (scoring::BACKOFF_TEN_THOUSANDTHS as real)
        / (scoring::TEN_THOUSAND as real));
}

proof fn lemma_rarity<W: Number>(value: spec_fn(W) -> Option<real>, frequency: nat, rarity: W)
    requires
        numbers::exact(value),
        scoring::is_rarity(frequency, rarity),
        frequency <= u128::MAX,
        value(rarity) is Some,
    ensures
        value(rarity)->0 == 1real / (frequency as real),
{
}

proof fn lemma_term_exact<W: Number>(
    value: spec_fn(W) -> Option<real>,
    r: Reachability,
    visits: Seq<Visit>,
    term: W,
)
    requires
        numbers::exact(value),
        reachable::tallies_fit(visits),
        weights_fit(visits),
        scoring::is_term(r, visits, term),
        value(term) is Some,
    ensures
        value(term)->0 == real_term(r, visits),
{
    let mutations = reachable::direct_mutations(visits, r.direct_neighbour_ancestor_index);
    let frequency = reachable::frequency(visits, r);
    assert(mutations <= usize::MAX && frequency <= usize::MAX);
    let (weight, rarity, weighed, one, scaled, depth) = choose|
        weight: W,
        rarity: W,
        weighed: W,
        one: W,
        scaled: W,
        depth: W,
    |
        {
            &&& #[trigger] scoring::is_weight(mutations as usize, weight)
            &&& #[trigger] scoring::is_rarity(frequency, rarity)
            &&& #[trigger] call_ensures(W::times, (weight, rarity), weighed)
            &&& call_ensures(W::of_integer, (1,), one)
            &&& #[trigger] call_ensures(W::times, (weighed, one), scaled)
            &&& call_ensures(W::of_integer, (r.depth as u128,), depth)
            &&& #[trigger] call_ensures(W::over, (scaled, depth), term)
        };
    assert(mutations / (scoring::MUTATIONS_PER_DECREMENT as nat) <= i32::MAX);
    lemma_weight(value, mutations as usize, weight);
    lemma_rarity(value, frequency, rarity);
    assert(value(one)->0 == 1real);
    let x = value(weighed)->0;
    assert(x * 1real == x) by (nonlinear_arith);
}

proof fn lemma_neighbour_score_exact<W: Number>(
    value: spec_fn(W) -> Option<real>,
    list: Seq<Reachability>,
    visits: Seq<Visit>,
    score: W,
)
    requires
        numbers::exact(value),
        reachable::tallies_fit(visits),
        weights_fit(visits),
        scoring::is_neighbour_score(list, visits, score),
        value(score) is Some,
    ensures
        value(score)->0 == real_neighbour_score(list, visits),
    decreases list.len(),
{
    if list.len() > 0 {
        let (before, term) = choose|before: W, term: W|
            {
                &&& scoring::is_neighbour_score(list.drop_last(), visits, before)
                &&& scoring::is_term(list.last(), visits, term)
                &&& #[trigger] call_ensures(W::plus, (before, term), score)
            };
        lemma_neighbour_score_exact(value, list.drop_last(), visits, before);
        lemma_term_exact(value, list.last(), visits, term);
    }
}

/// A score, if it stands for a real number, is the score of the testcase in real numbers.
pub proof fn scores_are_exact<W: Number>(
    value: spec_fn(W) -> Option<real>,
    entries: Seq<Entry>,
    k: int,
    score: W,
)
    requires
        numbers::exact(value),
        reachable::tallies_fit(reachable::visits(entries)),
        weights_fit(reachable::visits(entries)),
        scoring::is_score(entries, k, score),
        value(score) is Some,
    ensures
        value(score)->0 == real_score(entries, k),
{
    let visits = reachable::visits(entries);
    let list = entries[k].testcase.reachabilities@;
    let (near, least, exec_time, weighting) = choose|
        near: W,
        least: W,
        exec_time: W,
        weighting: W,
    |
        {
            &&& #[trigger] scoring::is_neighbour_score(list, visits, near)
            &&& call_ensures(W::of_integer, (scoring::min_time(entries),), least)
            &&& call_ensures(W::of_integer, (scoring::time_of(entries[k]),), exec_time)
            &&& #[trigger] call_ensures(W::over, (least, exec_time), weighting)
            &&& #[trigger] call_ensures(W::times, (near, weighting), score)
        };
    lemma_neighbour_score_exact(value, list, visits, near);
    assert(value(weighting)->0 == (scoring::min_time(entries) as real) / (scoring::time_of(
        entries[k],
    ) as real));
}

/// After a recalculation the total, if it stands for a real number, is the sum of the scores.
pub proof fn a_recalculation_sums_the_scores<W: Number>(
    value: spec_fn(W) -> Option<real>,
    map: Map<usize, W>,
    order: Seq<(usize, W)>,
    total: W,
    entries: Seq<Entry>,
)
    requires
        numbers::exact(value),
        reachable::tallies_fit(reachable::visits(entries)),
        weights_fit(reachable::visits(entries)),
        scoring::rescored(map, order, total, entries),
        value(total) is Some,
    ensures
        value(total)->0 == real_total(entries, entries.len()),
{
    sums_are_exact(value, order, order.len(), total);
    lemma_sum_of_scores(value, map, order, total, entries, entries.len());
}

proof fn lemma_sum_of_scores<W: Number>(
    value: spec_fn(W) -> Option<real>,
    map: Map<usize, W>,
    order: Seq<(usize, W)>,
    total: W,
    entries: Seq<Entry>,
    n: nat,
)
    requires
        numbers::exact(value),
        reachable::tallies_fit(reachable::visits(entries)),
        weights_fit(reachable::visits(entries)),
        scoring::rescored(map, order, total, entries),
        are_numbers(value, order, order.len() as int),
        n <= order.len(),
    ensures
        share(value, order, n) == real_total(entries, n),
    decreases n,
{
    if n > 0 {
        lemma_sum_of_scores(value, map, order, total, entries, (n - 1) as nat);
        assert(value(order[n - 1].1) is Some);
        scores_are_exact(value, entries, n - 1, order[n - 1].1);
    }
}

/// Whatever a testcase costs, as it is computed, stands for a real number.
pub open spec fn costs_are_numbers<W: Number>(
    value: spec_fn(W) -> Option<real>,
    entries: Seq<Entry>,
) -> bool {
    forall|k: int, runtime: W|
        0 <= k < entries.len() && #[trigger] ordering::is_runtime(entries[k], runtime) ==> value(
            runtime,
        ) is Some
}

/// The testcases are considered in the order of their costs, and of two of the same cost the one
/// that the corpus lists first is considered first.
pub proof fn the_cheapest_testcase_comes_first<W: Number>(
    value: spec_fn(W) -> Option<real>,
    entries: Seq<Entry>,
    order: Seq<usize>,
)
    requires
        numbers::exact(value),
        costs_are_numbers(value, entries),
        ordering::is_ordered::<W>(order, entries),
    ensures
        ordering::is_sorted(order, ordering::by_cost(entries)),
{
    let runtimes = choose|runtimes: Seq<W>|
        {
            &&& #[trigger] ordering::are_runtimes(runtimes, entries)
            &&& forall|cheaper: spec_fn(int, int) -> bool| #[trigger]
                ordering::fits(cheaper, runtimes) ==> ordering::is_sorted(order, cheaper)
        };
    assert forall|i: int| 0 <= i < entries.len() implies value(#[trigger] runtimes[i]) == Some(
        ordering::cost(entries[i]) as real,
    ) by {
        assert(ordering::is_runtime(entries[i], runtimes[i]));
        lemma_runtime(value, entries[i], runtimes[i]);
    }
    assert(ordering::fits(ordering::by_cost(entries), runtimes));
}

proof fn lemma_runtime<W: Number>(
    value: spec_fn(W) -> Option<real>,
    entry: Entry,
    runtime: W,
)
    requires
        numbers::exact(value),
        ordering::is_runtime(entry, runtime),
        value(runtime) is Some,
    ensures
        value(runtime) == Some(ordering::cost(entry) as real),
{
    let (nanos, len) = choose|nanos: W, len: W|
        {
            &&& call_ensures(W::of_integer, (scoring::time_of(entry),), nanos)
            &&& call_ensures(W::of_integer, (entry.testcase.len as u128,), len)
            &&& #[trigger] call_ensures(W::times, (nanos, len), runtime)
        };
    let a = scoring::time_of(entry);
    let b = entry.testcase.len as u128;
    assert((a as real) * (b as real) == (a * b) as real) by (nonlinear_arith);
}

/// The part of the total that a draw stands for.
proof fn lemma_threshold(total: real, draw: u64)
    requires
        total >= 0real,
        draw < sampling::MAX_RAND,
    ensures
        0real <= real_threshold(total, draw) <= total,
        total > 0real && draw > 0 ==> real_threshold(total, draw) > 0real,
{
    let max = sampling::MAX_RAND as real;
    let d = draw as real;
    let p = d / max;
    assert(0real <= p <= 1real && (d > 0real ==> p > 0real)) by (nonlinear_arith)
        requires
            p == d / max,
            max == 1000000real,
            0real <= d <= 1000000real,
    ;
    assert(0real <= total * p <= total && (total > 0real && p > 0real ==> total * p > 0real))
        by (nonlinear_arith)
        requires
            0real <= p <= 1real,
            total >= 0real,
    ;
}

/// The probabilities reach every threshold that a draw stands for, so that the testcase that is
/// picked is one at which it is reached.
pub proof fn a_draw_is_always_reached<W>(
    value: spec_fn(W) -> Option<real>,
    walk: Seq<(usize, W)>,
    draw: u64,
    n: int,
)
    requires
        no_negative(value, walk),
        draw < sampling::MAX_RAND,
        falls_to(
            value,
            walk,
            real_threshold(share(value, walk, walk.len()), draw),
            n,
        ),
    ensures
        share(value, walk, (n + 1) as nat) >= real_threshold(
            share(value, walk, walk.len()),
            draw,
        ),
{
    lemma_shares_grow(value, walk, 0, walk.len());
    lemma_threshold(share(value, walk, walk.len()), draw);
}

/// A testcase whose probability is zero is not picked, unless the draw is zero or no testcase has
/// a probability above zero.
pub proof fn what_has_no_probability_is_not_picked<W>(
    value: spec_fn(W) -> Option<real>,
    walk: Seq<(usize, W)>,
    draw: u64,
    n: int,
)
    requires
        no_negative(value, walk),
        0 < draw < sampling::MAX_RAND,
        share(value, walk, walk.len()) > 0real,
        falls_to(
            value,
            walk,
            real_threshold(share(value, walk, walk.len()), draw),
            n,
        ),
    ensures
        value(walk[n].1)->0 > 0real,
{
    let total = share(value, walk, walk.len());
    let threshold = real_threshold(total, draw);
    a_draw_is_always_reached(value, walk, draw, n);
    lemma_threshold(total, draw);
    a_testcase_is_picked_for_its_share(value, walk, threshold, n);
    if n == 0 {
        assert(share(value, walk, 0) == 0real);
    }
}

/// A testcase that had no probability and gets the average one leaves the average as it was.
pub proof fn adding_keeps_the_average<W: Number>(
    value: spec_fn(W) -> Option<real>,
    before: ProbabilityMetadata<W>,
    after: ProbabilityMetadata<W>,
    id: CorpusId,
)
    requires
        numbers::exact(value),
        scheduler::joined(before, after, id),
        !before.map@.dom().contains(id.0),
        before.map@.dom().finite(),
        before.map@.dom().len() > 0,
        before.map@.dom().len() <= u128::MAX,
        value(after.total_probability) is Some,
    ensures
        value(before.total_probability) is Some,
        value(after.total_probability)->0 / (after.map@.dom().len() as real) == value(
            before.total_probability,
        )->0 / (before.map@.dom().len() as real),
{
    let probability = after.map@[id.0];
    let asking = ProbabilityMetadata { needs_recalc: true, ..before };
    lemma_total_with(value, asking, id, probability, after.total_probability);
    let n = before.map@.dom().len();
    let m = after.map@.dom().len();
    assert(after.map@.dom() =~= before.map@.dom().insert(id.0));
    assert(m == n + 1);
    let total = value(before.total_probability)->0;
    let average = value(probability)->0;
    let new_total = value(after.total_probability)->0;
    assert(average == total / (n as real));
    assert(new_total / (m as real) == total / (n as real)) by (nonlinear_arith)
        requires
            n > 0,
            m == n + 1,
            average == total / (n as real),
            new_total == total + average,
    ;
}

proof fn lemma_power_shrinks(base: real, m: nat, n: nat)
    requires
        0real < base <= 1real,
        m <= n,
    ensures
        0real < numbers::real_power(base, n) <= numbers::real_power(base, m) <= 1real,
    decreases n,
{
    if n > 0 {
        if m == n {
            lemma_power_shrinks(base, (m - 1) as nat, (n - 1) as nat);
        } else {
            lemma_power_shrinks(base, m, (n - 1) as nat);
        }
        let shorter = numbers::real_power(base, (n - 1) as nat);
        assert(0real < base * shorter <= shorter) by (nonlinear_arith)
            requires
                0real < base <= 1real,
                0real < shorter,
        ;
    }
}

/// The more a neighbour has been fuzzed, the less it weighs: never more than one, and never
/// nothing.
pub proof fn more_mutations_weigh_less(fewer: nat, more: nat)
    requires
        fewer <= more,
    ensures
        0real < real_backoff(more) <= real_backoff(fewer) <= 1real,
{
    let base = (scoring::BACKOFF_TEN_THOUSANDTHS as real) / (scoring::TEN_THOUSAND as real);
    assert(0real < base <= 1real) by (nonlinear_arith)
        requires
            base == 9999real / 10000real,
    ;
    lemma_power_shrinks(
        base,
        fewer / (scoring::MUTATIONS_PER_DECREMENT as nat),
        more / (scoring::MUTATIONS_PER_DECREMENT as nat),
    );
}

/// No depth is zero.
spec fn has_depths(list: Seq<Reachability>) -> bool {
    forall|j: int| 0 <= j < list.len() ==> (#[trigger] list[j]).depth > 0
}

/// The reachability occurs.
spec fn occurs(visits: Seq<Visit>, r: Reachability) -> bool {
    exists|v: int| 0 <= v < visits.len() && (#[trigger] visits[v]).reachability == r
}

/// Of two corpora in which a reachability occurs equally often, it adds no more where its direct
/// neighbour was mutated more.
proof fn lemma_term(r: Reachability, a: Seq<Visit>, b: Seq<Visit>)
    requires
        occurs(a, r),
        r.depth > 0,
        reachable::frequency(a, r) == reachable::frequency(b, r),
        reachable::direct_mutations(a, r.direct_neighbour_ancestor_index)
            <= reachable::direct_mutations(b, r.direct_neighbour_ancestor_index),
    ensures
        0real < real_term(r, b) <= real_term(r, a),
{
    let v = choose|v: int| 0 <= v < a.len() && (#[trigger] a[v]).reachability == r;
    reachable::lemma_frequency_positive(a, v);
    let ancestor = r.direct_neighbour_ancestor_index;
    more_mutations_weigh_less(
        reachable::direct_mutations(a, ancestor),
        reachable::direct_mutations(b, ancestor),
    );
    let x = real_backoff(reachable::direct_mutations(a, ancestor));
    let y = real_backoff(reachable::direct_mutations(b, ancestor));
    let f = reachable::frequency(a, r) as real;
    let d = r.depth as real;
    let q = 1real / f;
    assert(q > 0real) by (nonlinear_arith)
        requires
            f > 0real,
            q == 1real / f,
    ;
    assert(0real < y * q <= x * q) by (nonlinear_arith)
        requires
            q > 0real,
            0real < y <= x,
    ;
    let s = x * q;
    let t = y * q;
    assert(0real < t / d <= s / d) by (nonlinear_arith)
        requires
            d > 0real,
            0real < t <= s,
    ;
}

proof fn lemma_neighbour_score(list: Seq<Reachability>, a: Seq<Visit>, b: Seq<Visit>)
    requires
        has_depths(list),
        forall|j: int| 0 <= j < list.len() ==> occurs(a, #[trigger] list[j]),
        forall|r: Reachability| #[trigger]
            reachable::frequency(a, r) == reachable::frequency(b, r),
        forall|index: usize| #[trigger]
            reachable::direct_mutations(a, index) <= reachable::direct_mutations(b, index),
    ensures
        0real <= real_neighbour_score(list, b) <= real_neighbour_score(list, a),
    decreases list.len(),
{
    if list.len() > 0 {
        let shorter = list.drop_last();
        assert forall|j: int| 0 <= j < shorter.len() implies occurs(a, #[trigger] shorter[j])
            && shorter[j].depth > 0 by {
            assert(shorter[j] == list[j]);
        }
        lemma_neighbour_score(shorter, a, b);
        let last = list[list.len() - 1];
        assert(occurs(a, last));
        assert(reachable::frequency(a, last) == reachable::frequency(b, last));
        assert(reachable::direct_mutations(a, last.direct_neighbour_ancestor_index)
            <= reachable::direct_mutations(b, last.direct_neighbour_ancestor_index));
        lemma_term(last, a, b);
    }
}

proof fn lemma_entry_occurs(entries: Seq<Entry>, k: int)
    requires
        0 <= k < entries.len(),
    ensures
        forall|j: int|
            0 <= j < entries[k].testcase.reachabilities@.len() ==> occurs(
                reachable::visits(entries),
                #[trigger] entries[k].testcase.reachabilities@[j],
            ),
{
    assert forall|j: int| 0 <= j < entries[k].testcase.reachabilities@.len() implies occurs(
        reachable::visits(entries),
        #[trigger] entries[k].testcase.reachabilities@[j],
    ) by {
        reachable::lemma_is_visited(entries, k, j);
    }
}

/// A testcase whose score stands for a real number takes time, and comes to nothing at depth zero.
proof fn lemma_scorable<W: Number>(
    value: spec_fn(W) -> Option<real>,
    entries: Seq<Entry>,
    k: int,
    score: W,
)
    requires
        numbers::exact(value),
        scoring::is_score(entries, k, score),
        value(score) is Some,
    ensures
        has_depths(entries[k].testcase.reachabilities@),
        scoring::time_of(entries[k]) > 0,
{
    let visits = reachable::visits(entries);
    let list = entries[k].testcase.reachabilities@;
    let (near, least, exec_time, weighting) = choose|
        near: W,
        least: W,
        exec_time: W,
        weighting: W,
    |
        {
            &&& #[trigger] scoring::is_neighbour_score(list, visits, near)
            &&& call_ensures(W::of_integer, (scoring::min_time(entries),), least)
            &&& call_ensures(W::of_integer, (scoring::time_of(entries[k]),), exec_time)
            &&& #[trigger] call_ensures(W::over, (least, exec_time), weighting)
            &&& #[trigger] call_ensures(W::times, (near, weighting), score)
        };
    assert(value(exec_time)->0 != 0real);
    lemma_depths(value, list, visits, near);
}

proof fn lemma_depths<W: Number>(
    value: spec_fn(W) -> Option<real>,
    list: Seq<Reachability>,
    visits: Seq<Visit>,
    score: W,
)
    requires
        numbers::exact(value),
        scoring::is_neighbour_score(list, visits, score),
        value(score) is Some,
    ensures
        has_depths(list),
    decreases list.len(),
{
    if list.len() > 0 {
        let shorter = list.drop_last();
        let last = list.last();
        let (before, term) = choose|before: W, term: W|
            {
                &&& scoring::is_neighbour_score(shorter, visits, before)
                &&& scoring::is_term(last, visits, term)
                &&& #[trigger] call_ensures(W::plus, (before, term), score)
            };
        lemma_depths(value, shorter, visits, before);
        lemma_depth(value, last, visits, term);
        assert forall|j: int| 0 <= j < list.len() implies (#[trigger] list[j]).depth > 0 by {
            if j < shorter.len() {
                assert(shorter[j] == list[j]);
            }
        }
    }
}

proof fn lemma_depth<W: Number>(
    value: spec_fn(W) -> Option<real>,
    r: Reachability,
    visits: Seq<Visit>,
    term: W,
)
    requires
        numbers::exact(value),
        scoring::is_term(r, visits, term),
        value(term) is Some,
    ensures
        r.depth > 0,
{
    let mutations = reachable::direct_mutations(visits, r.direct_neighbour_ancestor_index);
    let (weight, rarity, weighed, one, scaled, depth) = choose|
        weight: W,
        rarity: W,
        weighed: W,
        one: W,
        scaled: W,
        depth: W,
    |
        {
            &&& #[trigger] scoring::is_weight(mutations as usize, weight)
            &&& #[trigger] scoring::is_rarity(reachable::frequency(visits, r), rarity)
            &&& #[trigger] call_ensures(W::times, (weight, rarity), weighed)
            &&& call_ensures(W::of_integer, (1,), one)
            &&& #[trigger] call_ensures(W::times, (weighed, one), scaled)
            &&& call_ensures(W::of_integer, (r.depth as u128,), depth)
            &&& #[trigger] call_ensures(W::over, (scaled, depth), term)
        };
    assert(value(depth)->0 != 0real);
}

/// No score is negative.
pub proof fn scores_are_not_negative<W: Number>(
    value: spec_fn(W) -> Option<real>,
    entries: Seq<Entry>,
    k: int,
    score: W,
)
    requires
        numbers::exact(value),
        reachable::tallies_fit(reachable::visits(entries)),
        weights_fit(reachable::visits(entries)),
        0 <= k < entries.len(),
        scoring::is_score(entries, k, score),
        value(score) is Some,
    ensures
        value(score)->0 >= 0real,
{
    let visits = reachable::visits(entries);
    scores_are_exact(value, entries, k, score);
    lemma_scorable(value, entries, k, score);
    lemma_entry_occurs(entries, k);
    lemma_neighbour_score(entries[k].testcase.reachabilities@, visits, visits);
    let near = real_neighbour_score(entries[k].testcase.reachabilities@, visits);
    let least = scoring::min_time(entries) as real;
    let time = scoring::time_of(entries[k]) as real;
    assert(near * (least / time) >= 0real) by (nonlinear_arith)
        requires
            near >= 0real,
            least >= 0real,
            time > 0real,
    ;
}

proof fn lemma_neighbour_score_remove(list: Seq<Reachability>, visits: Seq<Visit>, p: int)
    requires
        0 <= p < list.len(),
    ensures
        real_neighbour_score(list, visits) == real_neighbour_score(
            list.remove(p),
            visits,
        ) + real_term(list[p], visits),
    decreases list.len(),
{
    let rest = list.remove(p);
    if p == list.len() - 1 {
        assert(rest =~= list.drop_last());
    } else {
        lemma_neighbour_score_remove(list.drop_last(), visits, p);
        assert(rest.drop_last() =~= list.drop_last().remove(p));
        assert(rest.last() == list.last());
    }
}

/// What reaches all that something else reaches adds up to no less.
proof fn lemma_more_reached(more: Seq<Reachability>, fewer: Seq<Reachability>, visits: Seq<Visit>)
    requires
        has_depths(more),
        forall|j: int| 0 <= j < more.len() ==> occurs(visits, #[trigger] more[j]),
        fewer.to_multiset().subset_of(more.to_multiset()),
    ensures
        real_neighbour_score(fewer, visits) <= real_neighbour_score(
            more,
            visits,
        ),
    decreases fewer.len(),
{
    broadcast use vstd::seq_lib::group_to_multiset_ensures;

    if fewer.len() == 0 {
        lemma_neighbour_score(more, visits, visits);
    } else {
        let last = fewer.last();
        let shorter = fewer.drop_last();
        assert(fewer[fewer.len() - 1] == last);
        assert(fewer.to_multiset().count(last) > 0);
        assert(more.to_multiset().count(last) > 0);
        assert(more.contains(last));
        let p = choose|p: int| 0 <= p < more.len() && more[p] == last;
        let rest = more.remove(p);
        assert(fewer.remove(fewer.len() - 1) =~= shorter);
        assert(shorter.to_multiset() =~= fewer.to_multiset().remove(last));
        assert(rest.to_multiset() =~= more.to_multiset().remove(last));
        assert forall|j: int| 0 <= j < rest.len() implies occurs(visits, #[trigger] rest[j])
            && rest[j].depth > 0 by {
            if j < p {
                assert(rest[j] == more[j]);
            } else {
                assert(rest[j] == more[j + 1]);
            }
        }
        lemma_more_reached(rest, shorter, visits);
        lemma_neighbour_score_remove(more, visits, p);
    }
}

/// Of two testcases of which the faster one reaches all that the other reaches, the faster one
/// does not score less.
pub proof fn faster_testcases_score_higher<W: Number>(
    value: spec_fn(W) -> Option<real>,
    entries: Seq<Entry>,
    fast: int,
    slow: int,
    fast_score: W,
    slow_score: W,
)
    requires
        numbers::exact(value),
        reachable::tallies_fit(reachable::visits(entries)),
        weights_fit(reachable::visits(entries)),
        0 <= fast < entries.len(),
        0 <= slow < entries.len(),
        entries[slow].testcase.reachabilities@.to_multiset().subset_of(
            entries[fast].testcase.reachabilities@.to_multiset(),
        ),
        scoring::time_of(entries[fast]) <= scoring::time_of(entries[slow]),
        scoring::is_score(entries, fast, fast_score),
        scoring::is_score(entries, slow, slow_score),
        value(fast_score) is Some,
        value(slow_score) is Some,
    ensures
        value(fast_score)->0 >= value(slow_score)->0,
{
    scores_are_exact(value, entries, fast, fast_score);
    scores_are_exact(value, entries, slow, slow_score);
    lemma_scorable(value, entries, fast, fast_score);
    lemma_scorable(value, entries, slow, slow_score);
    let visits = reachable::visits(entries);
    let more = entries[fast].testcase.reachabilities@;
    let fewer = entries[slow].testcase.reachabilities@;
    lemma_entry_occurs(entries, fast);
    lemma_entry_occurs(entries, slow);
    lemma_more_reached(more, fewer, visits);
    lemma_neighbour_score(fewer, visits, visits);
    let x = real_neighbour_score(more, visits);
    let y = real_neighbour_score(fewer, visits);
    let least = scoring::min_time(entries) as real;
    let quick = scoring::time_of(entries[fast]) as real;
    let long = scoring::time_of(entries[slow]) as real;
    let a = least / quick;
    let b = least / long;
    assert(a >= b >= 0real) by (nonlinear_arith)
        requires
            least >= 0real,
            0real < quick <= long,
            a == least / quick,
            b == least / long,
    ;
    assert(x * a >= y * b) by (nonlinear_arith)
        requires
            x >= y >= 0real,
            a >= b >= 0real,
    ;
}

/// The corpora differ only in that the testcases of the second were mutated more.
pub open spec fn mutated_more(a: Seq<Entry>, b: Seq<Entry>) -> bool {
    &&& a.len() == b.len()
    &&& forall|k: int|
        #![trigger a[k]]
        #![trigger b[k]]
        0 <= k < a.len() ==> {
            &&& a[k].id == b[k].id
            &&& scoring::time_of(a[k]) == scoring::time_of(b[k])
            &&& a[k].testcase.reachabilities@ == b[k].testcase.reachabilities@
            &&& reachable::mutations_of(a[k]) <= reachable::mutations_of(b[k])
        }
}

proof fn lemma_visits_mutated_more(a: Seq<Entry>, b: Seq<Entry>)
    requires
        mutated_more(a, b),
    ensures
        reachable::visits(a).len() == reachable::visits(b).len(),
        forall|v: int|
            #![trigger reachable::visits(a)[v]]
            #![trigger reachable::visits(b)[v]]
            0 <= v < reachable::visits(a).len() ==> {
                &&& reachable::visits(a)[v].reachability == reachable::visits(b)[v].reachability
                &&& reachable::visits(a)[v].mutations <= reachable::visits(b)[v].mutations
            },
    decreases a.len(),
{
    if a.len() > 0 {
        let x = a.drop_last();
        let y = b.drop_last();
        assert forall|k: int|
            #![trigger x[k]]
            #![trigger y[k]]
            0 <= k < x.len() implies {
            &&& x[k].id == y[k].id
            &&& scoring::time_of(x[k]) == scoring::time_of(y[k])
            &&& x[k].testcase.reachabilities@ == y[k].testcase.reachabilities@
            &&& reachable::mutations_of(x[k]) <= reachable::mutations_of(y[k])
        } by {
            assert(x[k] == a[k] && y[k] == b[k]);
        }
        lemma_visits_mutated_more(x, y);
        assert(a[a.len() - 1] == a.last() && b[b.len() - 1] == b.last());
    }
}

proof fn lemma_tallies_mutated_more(
    a: Seq<Visit>,
    b: Seq<Visit>,
    r: Reachability,
    index: usize,
)
    requires
        a.len() == b.len(),
        forall|v: int|
            #![trigger a[v]]
            #![trigger b[v]]
            0 <= v < a.len() ==> a[v].reachability == b[v].reachability && a[v].mutations
                <= b[v].mutations,
    ensures
        reachable::frequency(a, r) == reachable::frequency(b, r),
        reachable::direct_mutations(a, index) <= reachable::direct_mutations(b, index),
    decreases a.len(),
{
    if a.len() > 0 {
        let x = a.drop_last();
        let y = b.drop_last();
        assert forall|v: int|
            #![trigger x[v]]
            #![trigger y[v]]
            0 <= v < x.len() implies x[v].reachability == y[v].reachability && x[v].mutations
            <= y[v].mutations by {
            assert(x[v] == a[v] && y[v] == b[v]);
        }
        lemma_tallies_mutated_more(x, y, r, index);
        assert(a[a.len() - 1] == a.last() && b[b.len() - 1] == b.last());
    }
}

proof fn lemma_same_min_time(a: Seq<Entry>, b: Seq<Entry>)
    requires
        a.len() == b.len(),
        forall|k: int|
            #![trigger a[k]]
            0 <= k < a.len() ==> scoring::time_of(a[k]) == scoring::time_of(b[k]),
    ensures
        scoring::min_time(a) == scoring::min_time(b),
    decreases a.len(),
{
    if a.len() > 0 {
        let x = a.drop_last();
        let y = b.drop_last();
        assert forall|k: int| #![trigger x[k]] 0 <= k < x.len() implies scoring::time_of(x[k])
            == scoring::time_of(y[k]) by {
            assert(x[k] == a[k]);
        }
        lemma_same_min_time(x, y);
        assert(a[a.len() - 1] == a.last());
    }
}

proof fn lemma_score_mutated_more(a: Seq<Entry>, b: Seq<Entry>, k: int)
    requires
        mutated_more(a, b),
        0 <= k < a.len(),
        has_depths(a[k].testcase.reachabilities@),
        scoring::time_of(a[k]) > 0,
    ensures
        real_score(b, k) <= real_score(a, k),
{
    let va = reachable::visits(a);
    let vb = reachable::visits(b);
    lemma_visits_mutated_more(a, b);
    lemma_same_min_time(a, b);
    assert forall|r: Reachability| #[trigger] reachable::frequency(va, r) == reachable::frequency(
        vb,
        r,
    ) by {
        lemma_tallies_mutated_more(va, vb, r, 0);
    }
    assert forall|index: usize| #[trigger]
        reachable::direct_mutations(va, index) <= reachable::direct_mutations(vb, index) by {
        lemma_tallies_mutated_more(va, vb, a[k].testcase.reachabilities@[0], index);
    }
    let list = a[k].testcase.reachabilities@;
    lemma_entry_occurs(a, k);
    lemma_neighbour_score(list, va, vb);
    let x = real_neighbour_score(list, va);
    let y = real_neighbour_score(list, vb);
    let least = scoring::min_time(a) as real;
    let time = scoring::time_of(a[k]) as real;
    let w = least / time;
    assert(w >= 0real) by (nonlinear_arith)
        requires
            least >= 0real,
            time > 0real,
            w == least / time,
    ;
    assert(y * w <= x * w) by (nonlinear_arith)
        requires
            y <= x,
            w >= 0real,
    ;
}

proof fn lemma_total_mutated_more(a: Seq<Entry>, b: Seq<Entry>, n: nat)
    requires
        mutated_more(a, b),
        forall|k: int|
            0 <= k < a.len() ==> has_depths((#[trigger] a[k]).testcase.reachabilities@)
                && scoring::time_of(a[k]) > 0,
        n <= a.len(),
    ensures
        real_total(b, n) <= real_total(a, n),
    decreases n,
{
    if n > 0 {
        lemma_total_mutated_more(a, b, (n - 1) as nat);
        assert(scoring::time_of(a[n - 1]) > 0);
        lemma_score_mutated_more(a, b, n - 1);
    }
}

/// The more the neighbours have been fuzzed, the less they are prioritised: after recalculations of
/// two corpora that differ only in that the testcases of the second were mutated more, no testcase of the second has a larger probability, nor is the total larger.
pub proof fn more_mutations_are_not_prioritised<W: Number>(
    value: spec_fn(W) -> Option<real>,
    map_a: Map<usize, W>,
    order_a: Seq<(usize, W)>,
    total_a: W,
    a: Seq<Entry>,
    map_b: Map<usize, W>,
    order_b: Seq<(usize, W)>,
    total_b: W,
    b: Seq<Entry>,
)
    requires
        numbers::exact(value),
        scoring::rescored(map_a, order_a, total_a, a),
        scoring::rescored(map_b, order_b, total_b, b),
        mutated_more(a, b),
        reachable::tallies_fit(reachable::visits(b)),
        weights_fit(reachable::visits(b)),
    ensures
        forall|k: int|
            0 <= k < a.len() && value(map_a[(#[trigger] a[k]).id.0]) is Some && value(
                map_b[a[k].id.0],
            ) is Some ==> value(map_b[a[k].id.0])->0 <= value(map_a[a[k].id.0])->0,
        value(total_a) is Some && value(total_b) is Some ==> value(total_b)->0 <= value(
            total_a,
        )->0,
{
    let va = reachable::visits(a);
    let vb = reachable::visits(b);
    lemma_visits_mutated_more(a, b);
    assert forall|index: usize| #[trigger]
        reachable::direct_mutations(va, index) / (scoring::MUTATIONS_PER_DECREMENT as nat)
            <= i32::MAX by {
        let r = Reachability { index, depth: 0, direct_neighbour_ancestor_index: index };
        lemma_tallies_mutated_more(va, vb, r, index);
        assert(reachable::direct_mutations(vb, index) / (scoring::MUTATIONS_PER_DECREMENT as nat)
            <= i32::MAX);
        assert(reachable::direct_mutations(va, index) / (scoring::MUTATIONS_PER_DECREMENT as nat)
            <= reachable::direct_mutations(vb, index) / (scoring::MUTATIONS_PER_DECREMENT as nat));
    }
    assert(reachable::tallies_fit(va)) by {
        assert forall|r: Reachability| #[trigger] reachable::frequency(va, r) <= usize::MAX by {
            lemma_tallies_mutated_more(va, vb, r, 0);
            assert(reachable::frequency(vb, r) <= usize::MAX);
        }
        assert forall|index: usize| #[trigger]
            reachable::direct_mutations(va, index) <= usize::MAX by {
            let r = Reachability { index, depth: 0, direct_neighbour_ancestor_index: index };
            lemma_tallies_mutated_more(va, vb, r, index);
            assert(reachable::direct_mutations(vb, index) <= usize::MAX);
        }
    }
    assert forall|k: int|
        0 <= k < a.len() && value(map_a[(#[trigger] a[k]).id.0]) is Some && value(
            map_b[a[k].id.0],
        ) is Some implies value(map_b[a[k].id.0])->0 <= value(map_a[a[k].id.0])->0 by {
        assert(order_a[k].1 == map_a[a[k].id.0]);
        assert(order_b[k].1 == map_b[b[k].id.0]);
        scores_are_exact(value, a, k, order_a[k].1);
        scores_are_exact(value, b, k, order_b[k].1);
        lemma_scorable(value, a, k, order_a[k].1);
        lemma_score_mutated_more(a, b, k);
    }
    if value(total_a) is Some && value(total_b) is Some {
        a_recalculation_sums_the_scores(value, map_a, order_a, total_a, a);
        a_recalculation_sums_the_scores(value, map_b, order_b, total_b, b);
        sums_are_exact(value, order_a, order_a.len(), total_a);
        assert forall|k: int| 0 <= k < a.len() implies has_depths(
            (#[trigger] a[k]).testcase.reachabilities@,
        ) && scoring::time_of(a[k]) > 0 by {
            assert(value(order_a[k].1) is Some);
            lemma_scorable(value, a, k, order_a[k].1);
        }
        lemma_total_mutated_more(a, b, a.len());
    }
}

} // verus!
