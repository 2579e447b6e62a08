//! What holds of the scheduler when it computes in numbers that round, but not by much.

use vstd::prelude::*;

use crate::exact;
use crate::favored::RecalcReport;
use crate::model;
use crate::model::{CorpusId, Entry, ProbabilityMetadata, State};
use crate::numbers::Number;
use crate::sampling;
use crate::scheduler;
use crate::scoring;

verus! {

/// Comparing two numbers compares the real numbers that they stand for.
pub open spec fn compares<W: Number>(value: spec_fn(W) -> Option<real>) -> bool {
    forall|a: W, b: W, r: bool| #[trigger]
        call_ensures(W::is_at_least, (a, b), r) && value(a) is Some && value(b) is Some ==> r == (
        value(a)->0 >= value(b)->0)
}

/// The real number that a number stands for is no further than `error` from `goal`.
pub open spec fn is_close<W>(
    value: spec_fn(W) -> Option<real>,
    w: W,
    goal: real,
    error: real,
) -> bool {
    value(w) matches Some(x) && goal - error <= x <= goal + error
}

/// What the testcases of the corpus add up to.
pub open spec fn held_share<W: Number>(
    value: spec_fn(W) -> Option<real>,
    metadata: ProbabilityMetadata<W>,
    entries: Seq<Entry>,
) -> real {
    let held = sampling::held(metadata.map.order(), entries);
    exact::share(value, held, held.len())
}

/// The operations round by so little that whatever the first probabilities are added up to, and
/// whatever a draw stands for, is computed up to `error`.
pub open spec fn computes_closely<W: Number>(
    value: spec_fn(W) -> Option<real>,
    metadata: ProbabilityMetadata<W>,
    entries: Seq<Entry>,
    error: real,
) -> bool {
    let order = metadata.map.order();
    let held = sampling::held(order, entries);
    let part = held_share(value, metadata, entries);
    &&& forall|n: nat, k: W|
        n <= held.len() && #[trigger] sampling::sums_to(held, n, k) ==> is_close(
            value,
            k,
            exact::share(value, held, n),
            error,
        )
    &&& forall|total: W, draw: u64, threshold: W|
        draw < sampling::MAX_RAND && sampling::leaves(
            order,
            entries,
            metadata.total_probability,
            total,
        ) && #[trigger] sampling::is_threshold(total, draw, threshold) ==> is_close(
            value,
            threshold,
            exact::real_threshold(part, draw),
            error,
        )
}

/// What passes some probabilities is what they were added up to, and did not reach the threshold.
proof fn lemma_passes<W: Number>(walk: Seq<(usize, W)>, threshold: W, n: nat, k: W)
    requires
        sampling::passes(walk, threshold, n, k),
    ensures
        sampling::sums_to(walk, n, k),
        n > 0 ==> call_ensures(W::is_at_least, (k, threshold), false),
    decreases n,
{
    if n > 0 {
        let before = choose|before: W|
            {
                &&& sampling::passes(walk, threshold, (n - 1) as nat, before)
                &&& #[trigger] call_ensures(W::plus, (before, walk[n - 1].1), k)
                &&& call_ensures(W::is_at_least, (k, threshold), false)
            };
        lemma_passes(walk, threshold, (n - 1) as nat, before);
    }
}

/// The draw falls to position `n`, or so nearly that rounding may make it do so.
spec fn falls_near<W: Number>(
    value: spec_fn(W) -> Option<real>,
    held: Seq<(usize, W)>,
    threshold: real,
    error: real,
    n: int,
) -> bool {
    &&& 0 <= n < held.len()
    &&& n > 0 ==> exact::share(value, held, n as nat) < threshold + 2real * error
    &&& n < held.len() - 1 ==> threshold <= exact::share(value, held, (n + 1) as nat) + 2real
        * error
}

/// A sample is one that the draw nearly falls to.
proof fn lemma_sample<W: Number>(
    value: spec_fn(W) -> Option<real>,
    metadata: ProbabilityMetadata<W>,
    entries: Seq<Entry>,
    error: real,
    draw: u64,
    id: CorpusId,
) -> (n: int)
    requires
        compares(value),
        computes_closely(value, metadata, entries, error),
        draw < sampling::MAX_RAND,
        scheduler::sampled(metadata, entries, draw, id),
    ensures
        falls_near(
            value,
            sampling::held(metadata.map.order(), entries),
            exact::real_threshold(held_share(value, metadata, entries), draw),
            error,
            n,
        ),
        sampling::held(metadata.map.order(), entries)[n].0 == id.0,
{
    let order = metadata.map.order();
    let held = sampling::held(order, entries);
    let all = metadata.total_probability;
    let (total, n) = choose|total: W, n: int|
        {
            &&& #[trigger] sampling::leaves(order, entries, all, total)
            &&& #[trigger] sampling::picks(held, total, draw, n)
            &&& 0 <= n < held.len()
            &&& held[n].0 == id.0
        };
    let threshold = choose|threshold: W| #[trigger]
        sampling::is_threshold(total, draw, threshold) && sampling::is_choice(
            held,
            threshold,
            n,
        );
    let (before, k) = choose|before: W, k: W|
        {
            &&& sampling::passes(held, threshold, n as nat, before)
            &&& #[trigger] call_ensures(W::plus, (before, held[n].1), k)
            &&& call_ensures(W::is_at_least, (k, threshold), true) || (n == held.len() - 1
                && call_ensures(W::is_at_least, (k, threshold), false))
        };
    lemma_passes(held, threshold, n as nat, before);
    sampling::lemma_sums_step(held, n as nat, before, k);
    assert(sampling::sums_to(held, (n + 1) as nat, k));
    n
}

/// The number of draws up to a share that is not negative is no more than that share of all draws,
/// up to one draw.
proof fn lemma_draws_at_most(total: real, share: real)
    requires
        total > 0real,
        share >= 0real,
    ensures
        total * (exact::draws_up_to(total, share, sampling::MAX_RAND as nat) as real) <= share * (
        sampling::MAX_RAND as real) + total,
{
    let k = sampling::MAX_RAND as nat;
    let max = sampling::MAX_RAND as real;
    if share <= total {
        exact::lemma_all_draws_up_to(total, share);
    } else {
        lemma_draws_bounded(total, share, k);
        let c = exact::draws_up_to(total, share, k) as real;
        assert(total * c <= share * max) by (nonlinear_arith)
            requires
                0real < total < share,
                0real <= c <= max,
        ;
    }
}

/// The number of draws up to a share that is no more than the total is no less than that share of
/// all draws.
proof fn lemma_draws_at_least(total: real, share: real)
    requires
        total > 0real,
        share <= total,
    ensures
        share * (sampling::MAX_RAND as real) <= total * (exact::draws_up_to(
            total,
            share,
            sampling::MAX_RAND as nat,
        ) as real),
{
    let max = sampling::MAX_RAND as real;
    if share >= 0real {
        exact::lemma_all_draws_up_to(total, share);
    } else {
        let c = exact::draws_up_to(total, share, sampling::MAX_RAND as nat) as real;
        assert(share * max <= total * c) by (nonlinear_arith)
            requires
                share < 0real,
                total > 0real,
                max == 1000000real,
                c >= 0real,
        ;
    }
}

proof fn lemma_draws_bounded(total: real, share: real, k: nat)
    ensures
        exact::draws_up_to(total, share, k) <= k,
    decreases k,
{
    if k > 0 {
        lemma_draws_bounded(total, share, (k - 1) as nat);
    }
}

/// Each draw picks the testcase `ids[draw]`.
spec fn are_samples<W: Number>(
    metadata: ProbabilityMetadata<W>,
    entries: Seq<Entry>,
    ids: Seq<CorpusId>,
) -> bool {
    forall|draw: int|
        0 <= draw < ids.len() ==> scheduler::sampled(
            metadata,
            entries,
            draw as u64,
            #[trigger] ids[draw],
        )
}

/// How often the testcase at position `n` is picked by the draws below `k`.
proof fn lemma_times_scheduled<W: Number>(
    value: spec_fn(W) -> Option<real>,
    metadata: ProbabilityMetadata<W>,
    entries: Seq<Entry>,
    error: real,
    ids: Seq<CorpusId>,
    n: int,
    k: nat,
)
    requires
        compares(value),
        computes_closely(value, metadata, entries, error),
        error >= 0real,
        metadata.wf(),
        are_samples(metadata, entries, ids),
        exact::no_negative(value, sampling::held(metadata.map.order(), entries)),
        0 <= n < sampling::held(metadata.map.order(), entries).len(),
        k <= ids.len() <= sampling::MAX_RAND,
    ensures
        ({
            let held = sampling::held(metadata.map.order(), entries);
            let part = held_share(value, metadata, entries);
            let low = exact::share(value, held, n as nat);
            let high = exact::share(value, held, (n + 1) as nat);
            let slack = 2real * error;
            let times = exact::times_scheduled(ids, CorpusId(held[n].0), k) as int;
            let last = n == held.len() - 1;
            &&& times <= (if last {
                k as int
            } else {
                exact::draws_up_to(part, high + slack, k) as int
            }) - (if n == 0 {
                0int
            } else {
                exact::draws_up_to(part, low - slack, k) as int
            })
            &&& times >= (if last {
                k as int
            } else {
                exact::draws_up_to(part, high - slack, k) as int
            }) - (if n == 0 {
                0int
            } else {
                exact::draws_up_to(part, low + slack, k) as int
            })
        }),
    decreases k,
{
    if k > 0 {
        lemma_times_scheduled(value, metadata, entries, error, ids, n, (k - 1) as nat);
        let held = sampling::held(metadata.map.order(), entries);
        let part = held_share(value, metadata, entries);
        let draw = (k - 1) as u64;
        let id = ids[k - 1];
        assert(scheduler::sampled(metadata, entries, draw, id));
        let m = lemma_sample(value, metadata, entries, error, draw, id);
        metadata.map.lemma_order();
        exact::lemma_held_distinct(metadata.map.order(), entries);
        exact::lemma_shares_grow(value, held, n as nat, (n + 1) as nat);
        if m < n {
            assert(held[m].0 != held[n].0);
            exact::lemma_shares_grow(value, held, (m + 1) as nat, n as nat);
        } else if n < m {
            assert(held[n].0 != held[m].0);
            exact::lemma_shares_grow(value, held, (n + 1) as nat, m as nat);
        }
    }
}

/// Where a testcase is scheduled from the same state once for each draw, no recalculation is due,
/// and what is computed is computed up to `error`, each testcase of the corpus that has a
/// probability is scheduled nearly in proportion: as often as its probability is of what the
/// testcases of the corpus add up to, up to one time and what four times the error stands for. That
/// is up to two times, where the error is that small.
pub proof fn testcases_are_scheduled_nearly_in_proportion<
    W: Number,
    C: FnOnce(RecalcReport) -> (u128, u128),
>(
    value: spec_fn(W) -> Option<real>,
    error: real,
    before: State<W>,
    after: Seq<State<W>>,
    now: u128,
    finished: C,
    ids: Seq<CorpusId>,
    id: CorpusId,
)
    requires
        compares(value),
        error >= 0real,
        before.wf(),
        before.metadata is Some,
        computes_closely(value, before.metadata->0, before.corpus.entries@, error),
        !scheduler::will_recalc(before, now),
        ids.len() == sampling::MAX_RAND,
        after.len() == ids.len(),
        forall|draw: int|
            0 <= draw < ids.len() ==> scheduler::scheduled(
                before,
                after[draw],
                draw as u64,
                now,
                finished,
                #[trigger] ids[draw],
            ),
        exact::no_negative(
            value,
            sampling::held(before.metadata->0.map.order(), before.corpus.entries@),
        ),
        held_share(value, before.metadata->0, before.corpus.entries@) > 0real,
        before.corpus.holds(id),
        before.metadata->0.map@.dom().contains(id.0),
    ensures
        ({
            let max = sampling::MAX_RAND as real;
            let part = held_share(value, before.metadata->0, before.corpus.entries@);
            let times = exact::times_scheduled(ids, id, ids.len()) as real;
            let due = value(before.metadata->0.map@[id.0])->0 * max;
            let slack = 4real * error * max;
            &&& due - part - slack <= times * part <= due + part + slack
            &&& slack <= part ==> due - 2real * part <= times * part <= due + 2real * part
        }),
{
    let metadata = before.metadata->0;
    let entries = before.corpus.entries@;
    let order = metadata.map.order();
    let held = sampling::held(order, entries);
    let part = held_share(value, metadata, entries);
    assert forall|draw: int| 0 <= draw < ids.len() implies scheduler::sampled(
        metadata,
        entries,
        draw as u64,
        #[trigger] ids[draw],
    ) by {
        assert(scheduler::scheduled(
            before,
            after[draw],
            draw as u64,
            now,
            finished,
            ids[draw],
        ));
    }
    metadata.map.lemma_order();
    sampling::lemma_held(order, entries);
    let k = choose|k: int| 0 <= k < entries.len() && model::ids_of(entries)[k] == id;
    assert(entries[k].id.0 == id.0);
    assert(scoring::names(entries, id.0));
    let i = choose|i: int| 0 <= i < order.len() && (#[trigger] order[i]).0 == id.0;
    assert(held.contains(order[i]));
    let n = choose|n: int| 0 <= n < held.len() && held[n] == order[i];
    let low = exact::share(value, held, n as nat);
    let high = exact::share(value, held, (n + 1) as nat);
    let p = value(held[n].1)->0;
    let slack = 2real * error;
    lemma_times_scheduled(value, metadata, entries, error, ids, n, ids.len());
    exact::lemma_shares_grow(value, held, 0, n as nat);
    exact::lemma_shares_grow(value, held, n as nat, (n + 1) as nat);
    exact::lemma_shares_grow(value, held, (n + 1) as nat, held.len());
    lemma_draws_at_most(part, high + slack);
    lemma_draws_at_most(part, low + slack);
    lemma_draws_at_least(part, high - slack);
    lemma_draws_at_least(part, low - slack);
    lemma_count(
        part,
        low,
        high,
        error,
        exact::times_scheduled(ids, id, ids.len()) as real,
        n == 0,
        n == held.len() - 1,
    );
}

/// The bounds on the number of draws, put together.
proof fn lemma_count(
    part: real,
    low: real,
    high: real,
    error: real,
    times: real,
    is_first: bool,
    is_last: bool,
)
    requires
        part > 0real,
        error >= 0real,
        is_first ==> low == 0real,
        is_last ==> high == part,
        ({
            let max = sampling::MAX_RAND as real;
            let all = sampling::MAX_RAND as nat;
            let slack = 2real * error;
            let most = exact::draws_up_to(part, high + slack, all) as real;
            let least = exact::draws_up_to(part, high - slack, all) as real;
            let most_before = exact::draws_up_to(part, low + slack, all) as real;
            let least_before = exact::draws_up_to(part, low - slack, all) as real;
            &&& part * most <= (high + slack) * max + part
            &&& part * most_before <= (low + slack) * max + part
            &&& (high - slack) * max <= part * least
            &&& (low - slack) * max <= part * least_before
            &&& times <= (if is_last {
                max
            } else {
                most
            }) - (if is_first {
                0real
            } else {
                least_before
            })
            &&& times >= (if is_last {
                max
            } else {
                least
            }) - (if is_first {
                0real
            } else {
                most_before
            })
        }),
    ensures
        ({
            let max = sampling::MAX_RAND as real;
            let due = (high - low) * max;
            due - part - 4real * error * max <= times * part <= due + part + 4real * error * max
        }),
{
    let max = sampling::MAX_RAND as real;
    let all = sampling::MAX_RAND as nat;
    let slack = 2real * error;
    let most = exact::draws_up_to(part, high + slack, all) as real;
    let least = exact::draws_up_to(part, high - slack, all) as real;
    let most_before = exact::draws_up_to(part, low + slack, all) as real;
    let least_before = exact::draws_up_to(part, low - slack, all) as real;
    let to_most = if is_last {
        max
    } else {
        most
    };
    let to_least = if is_last {
        max
    } else {
        least
    };
    let from_least = if is_first {
        0real
    } else {
        least_before
    };
    let from_most = if is_first {
        0real
    } else {
        most_before
    };
    assert(times * part <= part * to_most - part * from_least) by (nonlinear_arith)
        requires
            part > 0real,
            times <= to_most - from_least,
    ;
    assert(times * part >= part * to_least - part * from_most) by (nonlinear_arith)
        requires
            part > 0real,
            times >= to_least - from_most,
    ;
    let h = high * max;
    let l = low * max;
    let s = slack * max;
    assert((high + slack) * max == h + s && (high - slack) * max == h - s && (low + slack) * max
        == l + s && (low - slack) * max == l - s && (high - low) * max == h - l && 4real * error
        * max == 2real * s && s >= 0real) by (nonlinear_arith)
        requires
            h == high * max,
            l == low * max,
            s == slack * max,
            slack == 2real * error,
            error >= 0real,
            max == 1000000real,
    ;
    if is_first {
        assert(l == 0real) by (nonlinear_arith)
            requires
                low == 0real,
                l == low * max,
        ;
        assert(part * 0real == 0real);
    }
    if is_last {
        assert(part * max == h);
    }
}

} // verus!
