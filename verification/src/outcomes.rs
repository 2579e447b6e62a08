//! What comes of scores, favored testcases and draws, told of nothing but the values that go in.

use vstd::arithmetic::power;
use vstd::prelude::*;

use crate::collections;
use crate::exact;
use crate::favored;
use crate::favored::RecalcReport;
use crate::laws;
use crate::model;
use crate::model::{CorpusId, Entry, Error, ProbabilityMetadata, Reachability, State};
use crate::numbers;
use crate::numbers::Number;
use crate::operations;
use crate::ordering;
use crate::reachable;
use crate::reachable::Visit;
use crate::sampling;
use crate::scheduler;
use crate::scheduler::{ProbabilitySamplingScheduler, TestcaseScore};
use crate::scoring;

verus! {

/// What a reachability adds to a score: 0.9999 to the power of a hundredth of the mutations next
/// to its direct neighbour, times one divided by how often it is listed, divided by its depth.
pub open spec fn is_added<W: Number>(entries: Seq<Entry>, r: Reachability, term: W) -> bool {
    let mutations = operations::executed_next_to(entries, r.direct_neighbour_ancestor_index);
    let occurrences = operations::occurrences(entries, r);
    exists|
        a: W,
        b: W,
        base: W,
        weight: W,
        c: W,
        d: W,
        rarity: W,
        weighed: W,
        e: W,
        scaled: W,
        depth: W,
    |
        {
            &&& call_ensures(W::of_integer, (9999,), a)
            &&& call_ensures(W::of_integer, (10000,), b)
            &&& #[trigger] call_ensures(W::over, (a, b), base)
            &&& #[trigger] call_ensures(W::to_the, (base, (mutations / 100) as i32), weight)
            &&& call_ensures(W::of_integer, (1,), c)
            &&& call_ensures(W::of_integer, (occurrences as u128,), d)
            &&& #[trigger] call_ensures(W::over, (c, d), rarity)
            &&& #[trigger] call_ensures(W::times, (weight, rarity), weighed)
            &&& call_ensures(W::of_integer, (1,), e)
            &&& #[trigger] call_ensures(W::times, (weighed, e), scaled)
            &&& call_ensures(W::of_integer, (r.depth as u128,), depth)
            &&& #[trigger] call_ensures(W::over, (scaled, depth), term)
        }
}

/// The probabilities of a walk, without the keys.
pub open spec fn probabilities<W>(walk: Seq<(usize, W)>) -> Seq<W> {
    Seq::new(walk.len(), |i: int| walk[i].1)
}

/// `sums` are what the items give when they are added up one after the other, from zero.
pub open spec fn add_up<W: Number>(items: Seq<W>, sums: Seq<W>) -> bool {
    &&& sums.len() == items.len() + 1
    &&& call_ensures(W::of_integer, (0,), sums[0])
    &&& forall|j: int|
        0 <= j < items.len() ==> #[trigger] call_ensures(
            W::plus,
            (sums[j], items[j]),
            sums[j + 1],
        )
}

/// The least of the times that the testcases took.
pub open spec fn is_least_time(entries: Seq<Entry>, least: u128) -> bool {
    &&& exists|k: int|
        0 <= k < entries.len() && (#[trigger] entries[k]).testcase.exec_time == Some(least)
    &&& forall|k: int|
        0 <= k < entries.len() ==> least <= (#[trigger] entries[k]).testcase.exec_time->0
}

/// The score of a testcase: what its reachabilities add, times the least time that a testcase took
/// divided by the time that this one took.
pub open spec fn is_score<W: Number>(entries: Seq<Entry>, k: int, score: W) -> bool {
    let list = entries[k].testcase.reachabilities@;
    exists|terms: Seq<W>, sums: Seq<W>, least: u128, a: W, b: W, ratio: W|
        {
            &&& terms.len() == list.len()
            &&& forall|j: int|
                0 <= j < list.len() ==> is_added(entries, list[j], #[trigger] terms[j])
            &&& #[trigger] add_up(terms, sums)
            &&& #[trigger] is_least_time(entries, least)
            &&& call_ensures(W::of_integer, (least,), a)
            &&& call_ensures(W::of_integer, (entries[k].testcase.exec_time->0,), b)
            &&& #[trigger] call_ensures(W::over, (a, b), ratio)
            &&& call_ensures(W::times, (sums[list.len() as int], ratio), score)
        }
}

/// The testcases of the corpus have their scores as their probabilities, nothing else has one, and
/// the total is what the scores add up to, in the order of the corpus.
pub open spec fn rescores<W: Number>(
    entries: Seq<Entry>,
    metadata: ProbabilityMetadata<W>,
) -> bool {
    let map = metadata.map@;
    let order = metadata.map.order();
    &&& forall|key: usize| #[trigger]
        map.dom().contains(key) <==> operations::is_in(entries, CorpusId(key))
    &&& order.len() == entries.len()
    &&& forall|k: int|
        0 <= k < entries.len() ==> {
            &&& (#[trigger] order[k]).0 == entries[k].id.0
            &&& map[entries[k].id.0] == order[k].1
            &&& is_score(entries, k, order[k].1)
        }
    &&& exists|sums: Seq<W>| #[trigger]
        add_up(probabilities(order), sums) && sums[order.len() as int]
            == metadata.total_probability
}

proof fn lemma_added<W: Number>(entries: Seq<Entry>, r: Reachability, term: W)
    requires
        operations::counts_fit(entries),
        scoring::is_term(r, reachable::visits(entries), term),
    ensures
        is_added(entries, r, term),
{
    let visits = reachable::visits(entries);
    let ancestor = r.direct_neighbour_ancestor_index;
    operations::lemma_counts(entries, r, ancestor);
    let mutations = reachable::direct_mutations(visits, ancestor);
    assert(operations::executed_next_to(entries, ancestor) <= usize::MAX);
    let (weight, rarity, weighed, one, scaled, depth) = choose|
        weight: W,
        rarity: W,
        weighed: W,
        one: W,
        scaled: W,
        depth: W,
    |
        {
            &&& #[trigger] scoring::is_weight(mutations as usize, weight)
            &&& #[trigger] scoring::is_rarity(reachable::frequency(visits, r), rarity)
            &&& #[trigger] call_ensures(W::times, (weight, rarity), weighed)
            &&& call_ensures(W::of_integer, (1,), one)
            &&& #[trigger] call_ensures(W::times, (weighed, one), scaled)
            &&& call_ensures(W::of_integer, (r.depth as u128,), depth)
            &&& #[trigger] call_ensures(W::over, (scaled, depth), term)
        };
    let exponent = ((mutations as usize) / 100) as i32;
    let (a, b, base) = choose|a: W, b: W, base: W|
        {
            &&& call_ensures(W::of_integer, (9999,), a)
            &&& call_ensures(W::of_integer, (10000,), b)
            &&& #[trigger] call_ensures(W::over, (a, b), base)
            &&& #[trigger] call_ensures(W::to_the, (base, exponent), weight)
        };
    let (c, d) = choose|c: W, d: W|
        {
            &&& call_ensures(W::of_integer, (1,), c)
            &&& call_ensures(W::of_integer, (reachable::frequency(visits, r) as u128,), d)
            &&& #[trigger] call_ensures(W::over, (c, d), rarity)
        };
    assert(exponent == (operations::executed_next_to(entries, ancestor) / 100) as i32);
    assert(call_ensures(W::over, (a, b), base));
    assert(call_ensures(W::over, (c, d), rarity));
}

proof fn lemma_near<W: Number>(list: Seq<Reachability>, visits: Seq<Visit>, score: W) -> (r: (
    Seq<W>,
    Seq<W>,
))
    requires
        scoring::is_neighbour_score(list, visits, score),
    ensures
        r.0.len() == list.len(),
        forall|j: int|
            0 <= j < list.len() ==> scoring::is_term(list[j], visits, #[trigger] r.0[j]),
        add_up(r.0, r.1),
        r.1[list.len() as int] == score,
    decreases list.len(),
{
    if list.len() == 0 {
        (Seq::empty(), seq![score])
    } else {
        let (before, term) = choose|before: W, term: W|
            {
                &&& scoring::is_neighbour_score(list.drop_last(), visits, before)
                &&& scoring::is_term(list.last(), visits, term)
                &&& #[trigger] call_ensures(W::plus, (before, term), score)
            };
        let (terms, sums) = lemma_near(list.drop_last(), visits, before);
        let more = terms.push(term);
        let total = sums.push(score);
        assert forall|j: int| 0 <= j < list.len() implies scoring::is_term(
            list[j],
            visits,
            #[trigger] more[j],
        ) by {
            if j < list.len() - 1 {
                assert(list.drop_last()[j] == list[j]);
                assert(more[j] == terms[j]);
            }
        }
        assert forall|j: int| 0 <= j < more.len() implies #[trigger] call_ensures(
            W::plus,
            (total[j], more[j]),
            total[j + 1],
        ) by {
            if j < terms.len() {
                assert(call_ensures(W::plus, (sums[j], terms[j]), sums[j + 1]));
            }
        }
        (more, total)
    }
}

proof fn lemma_least_time(entries: Seq<Entry>)
    requires
        entries.len() > 0,
        forall|k: int|
            0 <= k < entries.len() ==> (#[trigger] entries[k]).testcase.exec_time is Some,
    ensures
        is_least_time(entries, scoring::min_time(entries)),
    decreases entries.len(),
{
    let shorter = entries.drop_last();
    let last = entries.len() - 1;
    assert(entries[last].testcase.exec_time is Some);
    if shorter.len() > 0 {
        assert forall|k: int| 0 <= k < shorter.len() implies (
        #[trigger] shorter[k]).testcase.exec_time is Some by {
            assert(shorter[k] == entries[k]);
        }
        lemma_least_time(shorter);
        let k = choose|k: int|
            0 <= k < shorter.len() && (#[trigger] shorter[k]).testcase.exec_time == Some(
                scoring::min_time(shorter),
            );
        assert(entries[k] == shorter[k]);
        assert forall|k: int| 0 <= k < entries.len() implies scoring::min_time(entries) <= (
        #[trigger] entries[k]).testcase.exec_time->0 by {
            if k < last {
                assert(shorter[k] == entries[k]);
            }
        }
    } else {
        assert(scoring::min_time(shorter) == u128::MAX);
    }
}

proof fn lemma_score<W: Number>(entries: Seq<Entry>, k: int, score: W)
    requires
        operations::counts_fit(entries),
        forall|i: int|
            0 <= i < entries.len() ==> (#[trigger] entries[i]).testcase.exec_time is Some,
        0 <= k < entries.len(),
        scoring::is_score(entries, k, score),
    ensures
        is_score(entries, k, score),
{
    let list = entries[k].testcase.reachabilities@;
    let visits = reachable::visits(entries);
    let least = scoring::min_time(entries);
    let (near, a, b, ratio) = choose|near: W, a: W, b: W, ratio: W|
        {
            &&& #[trigger] scoring::is_neighbour_score(list, visits, near)
            &&& call_ensures(W::of_integer, (least,), a)
            &&& call_ensures(W::of_integer, (scoring::time_of(entries[k]),), b)
            &&& #[trigger] call_ensures(W::over, (a, b), ratio)
            &&& #[trigger] call_ensures(W::times, (near, ratio), score)
        };
    let (terms, sums) = lemma_near(list, visits, near);
    lemma_least_time(entries);
    assert forall|j: int| 0 <= j < list.len() implies is_added(
        entries,
        list[j],
        #[trigger] terms[j],
    ) by {
        lemma_added(entries, list[j], terms[j]);
    }
    assert(entries[k].testcase.exec_time is Some);
    assert(add_up(terms, sums) && is_least_time(entries, least));
    assert(call_ensures(W::over, (a, b), ratio));
    assert(call_ensures(W::times, (sums[list.len() as int], ratio), score));
}

proof fn lemma_sums<W: Number>(walk: Seq<(usize, W)>, n: nat, k: W) -> (sums: Seq<W>)
    requires
        n <= walk.len(),
        sampling::sums_to(walk, n, k),
    ensures
        add_up(probabilities(walk).take(n as int), sums),
        sums[n as int] == k,
    decreases n,
{
    if n == 0 {
        seq![k]
    } else {
        let before = choose|before: W|
            sampling::sums_to(walk, (n - 1) as nat, before) && #[trigger] call_ensures(
                W::plus,
                (before, walk[n - 1].1),
                k,
            );
        let sums = lemma_sums(walk, (n - 1) as nat, before);
        let fewer = probabilities(walk).take(n - 1);
        let items = probabilities(walk).take(n as int);
        let more = sums.push(k);
        assert forall|j: int| 0 <= j < items.len() implies #[trigger] call_ensures(
            W::plus,
            (more[j], items[j]),
            more[j + 1],
        ) by {
            if j < n - 1 {
                assert(call_ensures(W::plus, (sums[j], fewer[j]), sums[j + 1]));
            }
        }
        more
    }
}

proof fn lemma_rescores<W: Number>(entries: Seq<Entry>, metadata: ProbabilityMetadata<W>)
    requires
        operations::counts_fit(entries),
        forall|i: int|
            0 <= i < entries.len() ==> (#[trigger] entries[i]).testcase.exec_time is Some,
        scoring::rescored(
            metadata.map@,
            metadata.map.order(),
            metadata.total_probability,
            entries,
        ),
    ensures
        rescores(entries, metadata),
{
    let map = metadata.map@;
    let order = metadata.map.order();
    assert forall|key: usize| #[trigger]
        map.dom().contains(key) <==> operations::is_in(entries, CorpusId(key)) by {
        if operations::is_in(entries, CorpusId(key)) {
            let k = choose|k: int|
                0 <= k < entries.len() && (#[trigger] entries[k]).id == CorpusId(key);
            assert(entries[k].id.0 == key);
        }
        if scoring::names(entries, key) {
            let k = choose|k: int| 0 <= k < entries.len() && (#[trigger] entries[k]).id.0 == key;
            assert(entries[k].id == CorpusId(key));
        }
    }
    assert forall|k: int| 0 <= k < entries.len() implies {
        &&& (#[trigger] order[k]).0 == entries[k].id.0
        &&& map[entries[k].id.0] == order[k].1
        &&& is_score(entries, k, order[k].1)
    } by {
        lemma_score(entries, k, order[k].1);
    }
    let sums = lemma_sums(order, order.len(), metadata.total_probability);
    assert(probabilities(order).take(order.len() as int) =~= probabilities(order));
}

/// The testcase at position `k` comes as near to the index as any does.
pub open spec fn is_nearest(entries: Seq<Entry>, k: int, index: usize) -> bool {
    exists|j: int, r: Reachability|
        {
            &&& #[trigger] operations::lists(entries, k, j, r)
            &&& r.index == index
            &&& forall|other: Reachability| #[trigger]
                operations::is_listed(entries, other) && other.index == index ==> r.depth
                    <= other.depth
        }
}

/// The testcase at position `k` covers the edge.
pub open spec fn covers(entries: Seq<Entry>, k: int, edge: usize) -> bool {
    &&& 0 <= k < entries.len()
    &&& entries[k].testcase.indexes matches Some(indexes) && indexes@.contains(edge)
}

/// The testcase at position `k` comes nearest to something that none before it comes nearest to.
pub open spec fn is_first_to_reach(
    entries: Seq<Entry>,
    before: spec_fn(int, int) -> bool,
    k: int,
) -> bool {
    exists|index: usize| #[trigger]
        is_nearest(entries, k, index) && forall|i: int|
            0 <= i < entries.len() && #[trigger] before(i, k) ==> !is_nearest(entries, i, index)
}

/// The testcase at position `k` covers something that none before it covers.
pub open spec fn is_first_to_cover(
    entries: Seq<Entry>,
    before: spec_fn(int, int) -> bool,
    k: int,
) -> bool {
    exists|edge: usize| #[trigger]
        covers(entries, k, edge) && forall|i: int|
            0 <= i < entries.len() && #[trigger] before(i, k) ==> !covers(entries, i, edge)
}

/// The report tells which testcases are favored when they are considered in the given order: for
/// what it reaches, each that comes nearest to something first, and for what it covers, each other
/// that covers something first. All that any testcase covers is covered.
pub open spec fn tells(
    entries: Seq<Entry>,
    report: RecalcReport,
    before: spec_fn(int, int) -> bool,
) -> bool {
    let by_reach = collections::index_set_contents(report.reachability_favored_ids);
    let by_coverage = collections::index_set_contents(report.coverage_favored_ids);
    let edges = collections::index_set_contents(report.favored_edges);
    &&& report.corpus_size == entries.len()
    &&& forall|k: int|
        0 <= k < entries.len() ==> (by_reach.contains((#[trigger] entries[k]).id.0)
            <==> is_first_to_reach(entries, before, k))
    &&& forall|k: int|
        0 <= k < entries.len() ==> (by_coverage.contains((#[trigger] entries[k]).id.0)
            <==> !is_first_to_reach(entries, before, k) && is_first_to_cover(entries, before, k))
    &&& forall|id: usize| #[trigger]
        by_reach.contains(id) ==> operations::is_in(entries, CorpusId(id))
    &&& forall|id: usize| #[trigger]
        by_coverage.contains(id) ==> operations::is_in(entries, CorpusId(id))
    &&& forall|edge: usize| #[trigger]
        edges.contains(edge) <==> exists|k: int| covers(entries, k, edge)
    &&& report.skipped@.len() == 0
}

/// The cost of a testcase was computed: the time that it took, times the length of its input.
pub open spec fn is_cost<W: Number>(entry: Entry, cost: W) -> bool {
    exists|a: W, b: W|
        {
            &&& call_ensures(W::of_integer, (entry.testcase.exec_time->0,), a)
            &&& call_ensures(W::of_integer, (entry.testcase.len as u128,), b)
            &&& #[trigger] call_ensures(W::times, (a, b), cost)
        }
}

/// The relation puts the costs in order, and comparing two costs gives it.
pub open spec fn is_order_of<W: Number>(
    cheaper: spec_fn(int, int) -> bool,
    costs: Seq<W>,
) -> bool {
    &&& forall|i: int, j: int|
        0 <= i < costs.len() && 0 <= j < costs.len() && #[trigger] cheaper(i, j) ==> !cheaper(j, i)
    &&& forall|i: int, j: int, k: int|
        0 <= i < costs.len() && 0 <= j < costs.len() && 0 <= k < costs.len()
            && !#[trigger] cheaper(i, j) && !#[trigger] cheaper(j, k) ==> !cheaper(i, k)
    &&& forall|i: int, j: int, less: bool|
        #![trigger call_ensures(W::is_less, (costs[i], costs[j]), less)]
        0 <= i < costs.len() && 0 <= j < costs.len() && call_ensures(
            W::is_less,
            (costs[i], costs[j]),
            less,
        ) ==> less == cheaper(i, j)
}

/// The cheaper testcase comes first, and of two of the same cost the one that the corpus lists
/// first.
pub open spec fn first(cheaper: spec_fn(int, int) -> bool) -> spec_fn(int, int) -> bool {
    |i: int, j: int| cheaper(i, j) || (!cheaper(j, i) && i < j)
}

/// The report tells which testcases are favored when the cheapest are considered first.
pub open spec fn reports<W: Number>(entries: Seq<Entry>, report: RecalcReport) -> bool {
    exists|costs: Seq<W>|
        {
            &&& #[trigger] are_costs(entries, costs)
            &&& forall|cheaper: spec_fn(int, int) -> bool| #[trigger]
                is_order_of(cheaper, costs) ==> tells(entries, report, first(cheaper))
        }
}

/// The costs of the testcases were computed.
pub open spec fn are_costs<W: Number>(entries: Seq<Entry>, costs: Seq<W>) -> bool {
    &&& costs.len() == entries.len()
    &&& forall|k: int| 0 <= k < entries.len() ==> is_cost(entries[k], #[trigger] costs[k])
}

proof fn lemma_nearest(entries: Seq<Entry>, k: int, index: usize)
    requires
        0 <= k < entries.len(),
    ensures
        favored::nearest_to(entries[k], reachable::visits(entries)).contains(index)
            <==> is_nearest(entries, k, index),
{
    let visits = reachable::visits(entries);
    let list = entries[k].testcase.reachabilities@;
    if favored::nearest_to(entries[k], visits).contains(index) {
        let j = choose|j: int|
            0 <= j < list.len() && (#[trigger] list[j]).index == index
                && reachable::is_least_depth(visits, index, list[j].depth);
        let r = list[j];
        assert(operations::lists(entries, k, j, r));
        assert forall|other: Reachability| #[trigger]
            operations::is_listed(entries, other) && other.index == index implies r.depth
            <= other.depth by {
            operations::lemma_listed(entries, other);
            let v = choose|v: int|
                0 <= v < visits.len() && (#[trigger] visits[v]).reachability == other;
            assert(r.depth <= visits[v].reachability.depth);
        }
    }
    if is_nearest(entries, k, index) {
        let (j, r) = choose|j: int, r: Reachability|
            {
                &&& #[trigger] operations::lists(entries, k, j, r)
                &&& r.index == index
                &&& forall|other: Reachability| #[trigger]
                    operations::is_listed(entries, other) && other.index == index ==> r.depth
                        <= other.depth
            };
        assert(operations::is_listed(entries, r));
        operations::lemma_listed(entries, r);
        assert forall|v: int|
            0 <= v < visits.len() && (#[trigger] visits[v]).reachability.index
                == index implies r.depth <= visits[v].reachability.depth by {
            operations::lemma_listed(entries, visits[v].reachability);
            assert(operations::is_listed(entries, visits[v].reachability));
        }
        assert(list[j].index == index);
        assert(reachable::is_least_depth(visits, index, list[j].depth));
    }
}

proof fn lemma_covers(entries: Seq<Entry>, k: int, edge: usize)
    requires
        0 <= k < entries.len(),
    ensures
        favored::covered_by(entries[k]).contains(edge) <==> covers(entries, k, edge),
{
}

proof fn lemma_tells(
    entries: Seq<Entry>,
    report: RecalcReport,
    order: Seq<usize>,
    cheaper: spec_fn(int, int) -> bool,
)
    requires
        model::distinct_ids(entries),
        report.corpus_size == entries.len(),
        ordering::is_permutation(order, entries.len()),
        ordering::is_sorted(order, cheaper),
        forall|i: int| 0 <= i < entries.len() ==> !#[trigger] cheaper(i, i),
        report.tells(favored::selection(entries, reachable::visits(entries), order)),
    ensures
        tells(entries, report, first(cheaper)),
{
    let visits = reachable::visits(entries);
    let before = first(cheaper);
    let choice = favored::selection(entries, visits, order);
    assert forall|k: int| 0 <= k < entries.len() implies (choice.by_reach.contains(
        (#[trigger] entries[k]).id.0,
    ) <==> is_first_to_reach(entries, before, k)) && (choice.by_coverage.contains(
        entries[k].id.0,
    ) <==> !is_first_to_reach(entries, before, k) && is_first_to_cover(entries, before, k)) by {
        let n = laws::lemma_permutation_reaches(order, entries.len(), k);
        laws::favored_testcases_are_needed(entries, order, n);
        lemma_considered(entries, order, cheaper, n);
    }
    assert forall|id: usize|
        #![trigger choice.by_reach.contains(id)]
        #![trigger choice.by_coverage.contains(id)]
        choice.by_reach.contains(id) || choice.by_coverage.contains(
            id,
        ) implies operations::is_in(entries, CorpusId(id)) by {
        let i = laws::lemma_chosen_was_considered(entries, order, id);
        assert(entries[order[i] as int].id == CorpusId(id));
    }
    assert forall|edge: usize| #[trigger]
        choice.edges.contains(edge) <==> exists|k: int| covers(entries, k, edge) by {
        laws::lemma_edges(entries, order, edge);
        if choice.edges.contains(edge) {
            let n = choose|n: int|
                0 <= n < order.len() && favored::covered_by(
                    entries[(#[trigger] order[n]) as int],
                ).contains(edge);
            assert(covers(entries, order[n] as int, edge));
        }
        if exists|k: int| covers(entries, k, edge) {
            let k = choose|k: int| covers(entries, k, edge);
            let n = laws::lemma_permutation_reaches(order, entries.len(), k);
            assert(favored::covered_by(entries[order[n] as int]).contains(edge));
        }
    }
}

/// What is considered before the testcase at `order[n]` is what comes first.
proof fn lemma_considered(
    entries: Seq<Entry>,
    order: Seq<usize>,
    cheaper: spec_fn(int, int) -> bool,
    n: int,
)
    requires
        ordering::is_permutation(order, entries.len()),
        ordering::is_sorted(order, cheaper),
        forall|i: int| 0 <= i < entries.len() ==> !#[trigger] cheaper(i, i),
        0 <= n < order.len(),
    ensures
        laws::comes_nearest_first(entries, order, n) <==> is_first_to_reach(
            entries,
            first(cheaper),
            order[n] as int,
        ),
        laws::covers_something_first(entries, order, n) <==> is_first_to_cover(
            entries,
            first(cheaper),
            order[n] as int,
        ),
{
    let before = first(cheaper);
    let visits = reachable::visits(entries);
    let k = order[n] as int;
    assert(0 <= k < entries.len());
    // what is considered before comes first, and the other way round
    assert forall|m: int| 0 <= m < n implies before((#[trigger] order[m]) as int, k) by {
        assert(ordering::precedes(cheaper, order[m] as int, order[n] as int));
    }
    assert forall|i: int| 0 <= i < entries.len() && #[trigger] before(i, k) implies exists|m: int|
        0 <= m < n && (#[trigger] order[m]) == i by {
        let m = laws::lemma_permutation_reaches(order, entries.len(), i);
        if m > n {
            assert(ordering::precedes(cheaper, order[n] as int, order[m] as int));
        }
    }
    if laws::comes_nearest_first(entries, order, n) {
        let index = choose|index: usize|
            {
                &&& #[trigger] favored::nearest_to(entries[k], visits).contains(index)
                &&& forall|m: int|
                    0 <= m < n ==> !favored::nearest_to(
                        entries[(#[trigger] order[m]) as int],
                        visits,
                    ).contains(index)
            };
        lemma_nearest(entries, k, index);
        assert forall|i: int| 0 <= i < entries.len() && #[trigger] before(i, k) implies !is_nearest(
            entries,
            i,
            index,
        ) by {
            let m = choose|m: int| 0 <= m < n && (#[trigger] order[m]) == i;
            lemma_nearest(entries, i, index);
        }
    }
    if is_first_to_reach(entries, before, k) {
        let index = choose|index: usize| #[trigger]
            is_nearest(entries, k, index) && forall|i: int|
                0 <= i < entries.len() && #[trigger] before(i, k) ==> !is_nearest(
                    entries,
                    i,
                    index,
                );
        lemma_nearest(entries, k, index);
        assert forall|m: int| 0 <= m < n implies !favored::nearest_to(
            entries[(#[trigger] order[m]) as int],
            visits,
        ).contains(index) by {
            lemma_nearest(entries, order[m] as int, index);
            assert(before(order[m] as int, k));
        }
        assert(favored::nearest_to(entries[order[n] as int], visits).contains(index));
    }
    if laws::covers_something_first(entries, order, n) {
        let edge = choose|edge: usize|
            {
                &&& #[trigger] favored::covered_by(entries[k]).contains(edge)
                &&& forall|m: int|
                    0 <= m < n ==> !favored::covered_by(
                        entries[(#[trigger] order[m]) as int],
                    ).contains(edge)
            };
        lemma_covers(entries, k, edge);
        assert forall|i: int| 0 <= i < entries.len() && #[trigger] before(i, k) implies !covers(
            entries,
            i,
            edge,
        ) by {
            let m = choose|m: int| 0 <= m < n && (#[trigger] order[m]) == i;
            lemma_covers(entries, i, edge);
        }
    }
    if is_first_to_cover(entries, before, k) {
        let edge = choose|edge: usize| #[trigger]
            covers(entries, k, edge) && forall|i: int|
                0 <= i < entries.len() && #[trigger] before(i, k) ==> !covers(entries, i, edge);
        lemma_covers(entries, k, edge);
        assert forall|m: int| 0 <= m < n implies !favored::covered_by(
            entries[(#[trigger] order[m]) as int],
        ).contains(edge) by {
            lemma_covers(entries, order[m] as int, edge);
            assert(before(order[m] as int, k));
        }
        assert(favored::covered_by(entries[order[n] as int]).contains(edge));
    }
}

proof fn lemma_reports<W: Number>(entries: Seq<Entry>, report: RecalcReport)
    requires
        model::distinct_ids(entries),
        forall|i: int|
            0 <= i < entries.len() ==> (#[trigger] entries[i]).testcase.exec_time is Some,
        scheduler::reports::<W>(report, entries),
    ensures
        reports::<W>(entries, report),
{
    let visits = reachable::visits(entries);
    let order = choose|order: Seq<usize>|
        {
            &&& ordering::is_permutation(order, entries.len())
            &&& ordering::is_ordered::<W>(order, entries)
            &&& report.tells(#[trigger] favored::selection(entries, visits, order))
        };
    let costs = choose|costs: Seq<W>|
        {
            &&& #[trigger] ordering::are_runtimes(costs, entries)
            &&& forall|cheaper: spec_fn(int, int) -> bool| #[trigger]
                ordering::fits(cheaper, costs) ==> ordering::is_sorted(order, cheaper)
        };
    assert forall|k: int| 0 <= k < entries.len() implies is_cost(
        entries[k],
        #[trigger] costs[k],
    ) by {
        assert(ordering::is_runtime(entries[k], costs[k]));
        assert(entries[k].testcase.exec_time is Some);
    }
    assert(are_costs(entries, costs));
    assert forall|cheaper: spec_fn(int, int) -> bool| #[trigger]
        is_order_of(cheaper, costs) implies tells(entries, report, first(cheaper)) by {
        assert(ordering::fits(cheaper, costs));
        lemma_tells(entries, report, order, cheaper);
    }
}

/// Recalculating gives the testcases of the corpus their scores, and nothing else a probability,
/// brings what is known of the neighbours up to date, and reports the favored testcases. It
/// changes nothing else.
pub proof fn recalculating_scores_the_corpus<F: TestcaseScore<W>, W: Number>(
    scheduler: ProbabilitySamplingScheduler<F, W>,
    state: &mut State<W>,
    result: Result<RecalcReport, Error>,
)
    requires
        operations::are_distinct(old(state).corpus.entries@),
        operations::is_complete(*old(state)),
        old(state).metadata is Some,
        call_ensures(
            ProbabilitySamplingScheduler::<F, W>::recalc_all_probabilities,
            (&scheduler, state),
            result,
        ),
    ensures
        result matches Ok(report) && reports::<W>(old(state).corpus.entries@, report),
        final(state).corpus == old(state).corpus,
        final(state).neighbours is Some,
        operations::follows(
            old(state).neighbours->0,
            final(state).neighbours->0,
            old(state).corpus.entries@,
        ),
        final(state).metadata matches Some(metadata) && {
            &&& rescores(old(state).corpus.entries@, metadata)
            &&& metadata.needs_recalc == old(state).metadata->0.needs_recalc
            &&& metadata.last_recalc_time == old(state).metadata->0.last_recalc_time
            &&& metadata.last_recalc_duration == old(state).metadata->0.last_recalc_duration
        },
{
    let entries = old(state).corpus.entries@;
    assert forall|i: int| 0 <= i < entries.len() implies (
    #[trigger] entries[i]).testcase.exec_time is Some by {}
    operations::lemma_follows(old(state).neighbours->0, final(state).neighbours->0, entries);
    lemma_rescores(entries, final(state).metadata->0);
    lemma_reports::<W>(entries, result->Ok_0);
}

/// Adds what a reachability adds, where nothing is rounded: 0.9999 to the power of a hundredth of
/// the mutations next to its direct neighbour, divided by how often it is listed and by its depth.
pub open spec fn adding(entries: Seq<Entry>) -> spec_fn(real, Reachability) -> real {
    |sum: real, r: Reachability|
        {
            let n = (operations::executed_next_to(entries, r.direct_neighbour_ancestor_index)
                / 100) as nat;
            sum + ((power::pow(9999, n) as real) / (power::pow(10000, n) as real)) * (1real
                / (operations::occurrences(entries, r) as real)) / (r.depth as real)
        }
}

proof fn lemma_power(n: nat)
    ensures
        power::pow(10000, n) > 0,
        numbers::real_power(9999real / 10000real, n) == (power::pow(9999, n) as real) / (power::pow(
            10000,
            n,
        ) as real),
    decreases n,
{
    reveal(power::pow);
    if n == 0 {
        assert(1real / 1real == 1real) by (nonlinear_arith);
    } else {
        lemma_power((n - 1) as nat);
        let x = power::pow(9999, (n - 1) as nat);
        let y = power::pow(10000, (n - 1) as nat);
        let base = 9999real / 10000real;
        let before = numbers::real_power(base, (n - 1) as nat);
        assert(10000 * y > 0) by (nonlinear_arith)
            requires
                y > 0,
        ;
        assert((9999 * x) as real == 9999real * (x as real)) by (nonlinear_arith);
        assert((10000 * y) as real == 10000real * (y as real)) by (nonlinear_arith);
        let p = x as real;
        let q = y as real;
        assert(base * (p / q) == (9999real * p) / (10000real * q)) by (nonlinear_arith)
            requires
                q > 0real,
                base == 9999real / 10000real,
        ;
    }
}

/// What a reachability adds, where nothing is rounded.
proof fn lemma_adding<W: Number>(
    value: spec_fn(W) -> Option<real>,
    entries: Seq<Entry>,
    r: Reachability,
    term: W,
    sum: real,
)
    requires
        numbers::exact(value),
        operations::counts_fit(entries),
        0 <= operations::executed_next_to(entries, r.direct_neighbour_ancestor_index) / 100
            <= i32::MAX,
        operations::occurrences(entries, r) >= 0,
        is_added(entries, r, term),
        value(term) is Some,
    ensures
        adding(entries)(sum, r) == sum + value(term)->0,
{
    let mutations = operations::executed_next_to(entries, r.direct_neighbour_ancestor_index);
    let occurrences = operations::occurrences(entries, r);
    assert(occurrences <= usize::MAX);
    let n = (mutations / 100) as nat;
    let (a, b, base, weight, c, d, rarity, weighed, e, scaled, depth) = choose|
        a: W,
        b: W,
        base: W,
        weight: W,
        c: W,
        d: W,
        rarity: W,
        weighed: W,
        e: W,
        scaled: W,
        depth: W,
    |
        {
            &&& call_ensures(W::of_integer, (9999,), a)
            &&& call_ensures(W::of_integer, (10000,), b)
            &&& #[trigger] call_ensures(W::over, (a, b), base)
            &&& #[trigger] call_ensures(W::to_the, (base, (mutations / 100) as i32), weight)
            &&& call_ensures(W::of_integer, (1,), c)
            &&& call_ensures(W::of_integer, (occurrences as u128,), d)
            &&& #[trigger] call_ensures(W::over, (c, d), rarity)
            &&& #[trigger] call_ensures(W::times, (weight, rarity), weighed)
            &&& call_ensures(W::of_integer, (1,), e)
            &&& #[trigger] call_ensures(W::times, (weighed, e), scaled)
            &&& call_ensures(W::of_integer, (r.depth as u128,), depth)
            &&& #[trigger] call_ensures(W::over, (scaled, depth), term)
        };
    assert(value(scaled) is Some && value(depth) is Some);
    assert(value(weighed) is Some && value(e) is Some);
    assert(value(weight) is Some && value(rarity) is Some);
    assert((mutations / 100) as i32 == n);
    assert(value(base) is Some);
    assert(value(base)->0 == 9999real / 10000real);
    lemma_power(n);
    assert(value(e)->0 == 1real);
    let x = value(weighed)->0;
    assert(x * 1real == x) by (nonlinear_arith);
    assert(value(rarity)->0 == 1real / (occurrences as real));
}

proof fn lemma_not_negative(entries: Seq<Entry>, r: Reachability, index: usize)
    ensures
        operations::occurrences(entries, r) >= 0,
        operations::executed_next_to(entries, index) >= 0,
{
    operations::lemma_counts(entries, r, index);
}

proof fn lemma_adding_up<W: Number>(
    value: spec_fn(W) -> Option<real>,
    entries: Seq<Entry>,
    list: Seq<Reachability>,
    terms: Seq<W>,
    sums: Seq<W>,
    n: nat,
)
    requires
        numbers::exact(value),
        operations::counts_fit(entries),
        forall|j: int|
            0 <= j < list.len() ==> operations::executed_next_to(
                entries,
                (#[trigger] list[j]).direct_neighbour_ancestor_index,
            ) / 100 <= i32::MAX,
        terms.len() == list.len(),
        forall|j: int| 0 <= j < list.len() ==> is_added(entries, list[j], #[trigger] terms[j]),
        add_up(terms, sums),
        n <= list.len(),
        value(sums[n as int]) is Some,
    ensures
        value(sums[n as int])->0 == list.take(n as int).fold_left(0real, adding(entries)),
    decreases n,
{
    if n == 0 {
        assert(list.take(0) =~= Seq::empty());
    } else {
        let m = n - 1;
        assert(call_ensures(W::plus, (sums[m], terms[m]), sums[m + 1]));
        lemma_adding_up(value, entries, list, terms, sums, m as nat);
        let r = list[m];
        lemma_not_negative(entries, r, r.direct_neighbour_ancestor_index);
        assert(is_added(entries, list[m], terms[m]));
        lemma_adding(value, entries, r, terms[m], value(sums[m])->0);
        assert(list.take(n as int).drop_last() =~= list.take(m));
        assert(list.take(n as int).last() == r);
    }
}

/// A score, where nothing is rounded: what the reachabilities of the testcase add, times the least
/// of the times that the testcases took divided by the time that this one took.
pub proof fn a_score_in_real_numbers<W: Number>(
    value: spec_fn(W) -> Option<real>,
    entries: Seq<Entry>,
    k: int,
    score: W,
    least: u128,
)
    requires
        numbers::exact(value),
        operations::counts_fit(entries),
        forall|j: int|
            0 <= j < entries[k].testcase.reachabilities@.len() ==> operations::executed_next_to(
                entries,
                (#[trigger] entries[k].testcase.reachabilities@[j]).direct_neighbour_ancestor_index,
            ) / 100 <= i32::MAX,
        0 <= k < entries.len(),
        forall|i: int|
            0 <= i < entries.len() ==> (#[trigger] entries[i]).testcase.exec_time is Some,
        is_least_time(entries, least),
        is_score(entries, k, score),
        value(score) is Some,
    ensures
        entries[k].testcase.exec_time->0 > 0,
        value(score)->0 == entries[k].testcase.reachabilities@.fold_left(
            0real,
            adding(entries),
        ) * ((least as real) / (entries[k].testcase.exec_time->0 as real)),
{
    let list = entries[k].testcase.reachabilities@;
    let time = entries[k].testcase.exec_time->0;
    let (terms, sums, low, a, b, ratio) = choose|
        terms: Seq<W>,
        sums: Seq<W>,
        low: u128,
        a: W,
        b: W,
        ratio: W,
    |
        {
            &&& terms.len() == list.len()
            &&& forall|j: int|
                0 <= j < list.len() ==> is_added(entries, list[j], #[trigger] terms[j])
            &&& #[trigger] add_up(terms, sums)
            &&& #[trigger] is_least_time(entries, low)
            &&& call_ensures(W::of_integer, (low,), a)
            &&& call_ensures(W::of_integer, (time,), b)
            &&& #[trigger] call_ensures(W::over, (a, b), ratio)
            &&& call_ensures(W::times, (sums[list.len() as int], ratio), score)
        };
    assert(low == least) by {
        let i = choose|i: int|
            0 <= i < entries.len() && (#[trigger] entries[i]).testcase.exec_time == Some(low);
        let j = choose|j: int|
            0 <= j < entries.len() && (#[trigger] entries[j]).testcase.exec_time == Some(least);
        assert(least <= entries[i].testcase.exec_time->0);
        assert(low <= entries[j].testcase.exec_time->0);
    }
    assert(value(ratio) is Some && value(sums[list.len() as int]) is Some);
    assert(value(b)->0 != 0real);
    lemma_adding_up(value, entries, list, terms, sums, list.len());
    assert(list.take(list.len() as int) =~= list);
    assert(value(ratio)->0 == (least as real) / (time as real));
}

/// Of two testcases that list the same, one that took `c` times as long has one `c`-th of the
/// score, where nothing is rounded.
pub proof fn a_slower_testcase_scores_less<W: Number>(
    value: spec_fn(W) -> Option<real>,
    entries: Seq<Entry>,
    fast: int,
    slow: int,
    c: nat,
    fast_score: W,
    slow_score: W,
)
    requires
        numbers::exact(value),
        operations::counts_fit(entries),
        forall|r: Reachability| #[trigger]
            operations::is_listed(entries, r) ==> operations::executed_next_to(
                entries,
                r.direct_neighbour_ancestor_index,
            ) / 100 <= i32::MAX,
        0 <= fast < entries.len(),
        0 <= slow < entries.len(),
        forall|i: int|
            0 <= i < entries.len() ==> (#[trigger] entries[i]).testcase.exec_time is Some,
        entries[fast].testcase.reachabilities@ == entries[slow].testcase.reachabilities@,
        entries[slow].testcase.exec_time->0 == c * entries[fast].testcase.exec_time->0,
        is_score(entries, fast, fast_score),
        is_score(entries, slow, slow_score),
        value(fast_score) is Some,
        value(slow_score) is Some,
    ensures
        value(slow_score)->0 * (c as real) == value(fast_score)->0,
{
    assert forall|j: int|
        0 <= j < entries[fast].testcase.reachabilities@.len() implies operations::executed_next_to(
        entries,
        (#[trigger] entries[fast].testcase.reachabilities@[j]).direct_neighbour_ancestor_index,
    ) / 100 <= i32::MAX by {
        let r = entries[fast].testcase.reachabilities@[j];
        assert(operations::lists(entries, fast, j, r));
        assert(operations::is_listed(entries, r));
    }
    let list = entries[fast].testcase.reachabilities@;
    let least = scoring::min_time(entries);
    lemma_least_time(entries);
    a_score_in_real_numbers(value, entries, fast, fast_score, least);
    a_score_in_real_numbers(value, entries, slow, slow_score, least);
    let near = list.fold_left(0real, adding(entries));
    let t = entries[fast].testcase.exec_time->0;
    let u = entries[slow].testcase.exec_time->0;
    assert(u as real == (c as real) * (t as real)) by (nonlinear_arith)
        requires
            u == c * t,
    ;
    let x = c as real;
    let y = t as real;
    let z = u as real;
    let l = least as real;
    assert((near * (l / z)) * x == near * (l / y)) by (nonlinear_arith)
        requires
            z == x * y,
            y > 0real,
            z > 0real,
    ;
}

/// Adds what an item of a walk stands for.
pub open spec fn adding_value<W>(value: spec_fn(W) -> Option<real>) -> spec_fn(
    real,
    (usize, W),
) -> real {
    |sum: real, item: (usize, W)| sum + value(item.1)->0
}

proof fn lemma_total<W: Number>(
    value: spec_fn(W) -> Option<real>,
    walk: Seq<(usize, W)>,
    sums: Seq<W>,
    n: nat,
)
    requires
        numbers::exact(value),
        add_up(probabilities(walk), sums),
        n <= walk.len(),
        value(sums[n as int]) is Some,
    ensures
        value(sums[n as int])->0 == walk.take(n as int).fold_left(0real, adding_value(value)),
        forall|i: int| 0 <= i < n ==> value((#[trigger] walk[i]).1) is Some,
    decreases n,
{
    if n == 0 {
        assert(walk.take(0) =~= Seq::empty());
    } else {
        let m = n - 1;
        let items = probabilities(walk);
        assert(items[m] == walk[m].1);
        assert(call_ensures(W::plus, (sums[m], items[m]), sums[m + 1]));
        lemma_total(value, walk, sums, m as nat);
        assert(walk.take(n as int).drop_last() =~= walk.take(m));
        assert(walk.take(n as int).last() == walk[m]);
    }
}

/// What a recalculation gives, where nothing is rounded and the total can be held: each testcase
/// has what its reachabilities add, times the least of the times that the testcases took divided by
/// the time that this one took, and the total is the sum of that.
pub proof fn recalculating_in_real_numbers<F: TestcaseScore<W>, W: Number>(
    scheduler: ProbabilitySamplingScheduler<F, W>,
    state: &mut State<W>,
    result: Result<RecalcReport, Error>,
    value: spec_fn(W) -> Option<real>,
    least: u128,
)
    requires
        numbers::exact(value),
        operations::are_distinct(old(state).corpus.entries@),
        operations::is_complete(*old(state)),
        forall|index: usize| #[trigger]
            operations::executed_next_to(old(state).corpus.entries@, index) / 100 <= i32::MAX,
        is_least_time(old(state).corpus.entries@, least),
        old(state).metadata is Some,
        call_ensures(
            ProbabilitySamplingScheduler::<F, W>::recalc_all_probabilities,
            (&scheduler, state),
            result,
        ),
        value(final(state).metadata->0.total_probability) is Some,
    ensures
        ({
            let entries = old(state).corpus.entries@;
            let metadata = final(state).metadata->0;
            &&& forall|k: int|
                0 <= k < entries.len() ==> {
                    let score = metadata.map@[(#[trigger] entries[k]).id.0];
                    &&& value(score) is Some
                    &&& value(score)->0 == entries[k].testcase.reachabilities@.fold_left(
                        0real,
                        adding(entries),
                    ) * ((least as real) / (entries[k].testcase.exec_time->0 as real))
                }
            &&& value(metadata.total_probability)->0 == metadata.map.order().fold_left(
                0real,
                adding_value(value),
            )
        }),
{
    recalculating_scores_the_corpus(scheduler, state, result);
    let entries = old(state).corpus.entries@;
    let metadata = final(state).metadata->0;
    let order = metadata.map.order();
    let sums = choose|sums: Seq<W>| #[trigger]
        add_up(probabilities(order), sums) && sums[order.len() as int]
            == metadata.total_probability;
    lemma_total(value, order, sums, order.len());
    assert(order.take(order.len() as int) =~= order);
    assert forall|k: int| 0 <= k < entries.len() implies {
        let score = metadata.map@[(#[trigger] entries[k]).id.0];
        &&& value(score) is Some
        &&& value(score)->0 == entries[k].testcase.reachabilities@.fold_left(
            0real,
            adding(entries),
        ) * ((least as real) / (entries[k].testcase.exec_time->0 as real))
    } by {
        assert(order[k].0 == entries[k].id.0);
        assert(value(order[k].1) is Some);
        assert forall|j: int|
            0 <= j < entries[k].testcase.reachabilities@.len() implies operations::executed_next_to(
            entries,
            (#[trigger] entries[k].testcase.reachabilities@[j]).direct_neighbour_ancestor_index,
        ) / 100 <= i32::MAX by {}
        a_score_in_real_numbers(value, entries, k, order[k].1, least);
    }
}

/// Tells whether an item of a walk is a testcase of the corpus.
pub open spec fn is_held<W>(entries: Seq<Entry>) -> spec_fn((usize, W)) -> bool {
    |item: (usize, W)| operations::is_in(entries, CorpusId(item.0))
}

/// Tells whether an item of a walk is not a testcase of the corpus.
pub open spec fn is_gone<W>(entries: Seq<Entry>) -> spec_fn((usize, W)) -> bool {
    |item: (usize, W)| !operations::is_in(entries, CorpusId(item.0))
}

/// `left` is what is left of the total when the items are taken away one after the other.
pub open spec fn is_left<W: Number>(total: W, items: Seq<W>, left: W) -> bool {
    exists|steps: Seq<W>|
        {
            &&& #[trigger] steps.len() == items.len() + 1
            &&& steps[0] == total
            &&& forall|i: int|
                0 <= i < items.len() ==> #[trigger] call_ensures(
                    W::minus,
                    (steps[i], items[i]),
                    steps[i + 1],
                )
            &&& steps[items.len() as int] == left
        }
}

/// The draw picks position `n` of the walk: the probabilities are added up until they are at least
/// the total times the draw divided by a million, and that is first so at `n`, or nowhere, and `n`
/// is the last position.
pub open spec fn is_picked<W: Number>(
    walk: Seq<(usize, W)>,
    total: W,
    draw: u64,
    n: int,
) -> bool {
    &&& 0 <= n < walk.len()
    &&& exists|a: W, b: W, part: W, threshold: W, sums: Seq<W>|
        {
            &&& call_ensures(W::of_integer, (draw as u128,), a)
            &&& call_ensures(W::of_integer, (1_000_000,), b)
            &&& #[trigger] call_ensures(W::over, (a, b), part)
            &&& #[trigger] call_ensures(W::times, (total, part), threshold)
            &&& #[trigger] add_up(probabilities(walk.take(n + 1)), sums)
            &&& forall|i: int|
                0 < i <= n ==> #[trigger] call_ensures(
                    W::is_at_least,
                    (sums[i], threshold),
                    false,
                )
            &&& call_ensures(W::is_at_least, (sums[n + 1], threshold), true) || (n == walk.len()
                - 1 && call_ensures(W::is_at_least, (sums[n + 1], threshold), false))
        }
}

/// The draw picks the testcase from those of the corpus that have a probability, in the order of
/// the table, for what they have of the total.
pub open spec fn is_drawn<W: Number>(
    metadata: ProbabilityMetadata<W>,
    entries: Seq<Entry>,
    draw: u64,
    id: CorpusId,
) -> bool {
    let order = metadata.map.order();
    let held = order.filter(is_held::<W>(entries));
    let gone = probabilities(order.filter(is_gone::<W>(entries)));
    exists|total: W, n: int|
        {
            &&& #[trigger] is_left(metadata.total_probability, gone, total)
            &&& #[trigger] is_picked(held, total, draw, n)
            &&& held[n].0 == id.0
        }
}

proof fn lemma_passes<W: Number>(walk: Seq<(usize, W)>, threshold: W, n: nat, k: W) -> (sums: Seq<
    W,
>)
    requires
        n <= walk.len(),
        sampling::passes(walk, threshold, n, k),
    ensures
        add_up(probabilities(walk).take(n as int), sums),
        sums[n as int] == k,
        forall|i: int|
            0 < i <= n ==> #[trigger] call_ensures(W::is_at_least, (sums[i], threshold), false),
    decreases n,
{
    if n == 0 {
        seq![k]
    } else {
        let before = choose|before: W|
            {
                &&& sampling::passes(walk, threshold, (n - 1) as nat, before)
                &&& #[trigger] call_ensures(W::plus, (before, walk[n - 1].1), k)
                &&& call_ensures(W::is_at_least, (k, threshold), false)
            };
        let sums = lemma_passes(walk, threshold, (n - 1) as nat, before);
        let fewer = probabilities(walk).take(n - 1);
        let items = probabilities(walk).take(n as int);
        let more = sums.push(k);
        assert forall|j: int| 0 <= j < items.len() implies #[trigger] call_ensures(
            W::plus,
            (more[j], items[j]),
            more[j + 1],
        ) by {
            if j < n - 1 {
                assert(call_ensures(W::plus, (sums[j], fewer[j]), sums[j + 1]));
            }
        }
        assert forall|i: int| 0 < i <= n implies #[trigger] call_ensures(
            W::is_at_least,
            (more[i], threshold),
            false,
        ) by {
            if i < n {
                assert(more[i] == sums[i]);
            }
        }
        more
    }
}

proof fn lemma_picked<W: Number>(walk: Seq<(usize, W)>, total: W, draw: u64, n: int)
    requires
        sampling::picks(walk, total, draw, n),
    ensures
        is_picked(walk, total, draw, n),
{
    let threshold = choose|threshold: W| #[trigger]
        sampling::is_threshold(total, draw, threshold) && sampling::is_choice(walk, threshold, n);
    let (a, b, part) = choose|a: W, b: W, part: W|
        {
            &&& call_ensures(W::of_integer, (draw as u128,), a)
            &&& call_ensures(W::of_integer, (1_000_000,), b)
            &&& #[trigger] call_ensures(W::over, (a, b), part)
            &&& #[trigger] call_ensures(W::times, (total, part), threshold)
        };
    let (before, k) = choose|before: W, k: W|
        {
            &&& sampling::passes(walk, threshold, n as nat, before)
            &&& #[trigger] call_ensures(W::plus, (before, walk[n].1), k)
            &&& call_ensures(W::is_at_least, (k, threshold), true) || (n == walk.len() - 1
                && call_ensures(W::is_at_least, (k, threshold), false))
        };
    let sums = lemma_passes(walk, threshold, n as nat, before);
    let fewer = probabilities(walk).take(n);
    let items = probabilities(walk.take(n + 1));
    let more = sums.push(k);
    assert forall|j: int| 0 <= j < items.len() implies #[trigger] call_ensures(
        W::plus,
        (more[j], items[j]),
        more[j + 1],
    ) by {
        if j < n {
            assert(call_ensures(W::plus, (sums[j], fewer[j]), sums[j + 1]));
        }
    }
    assert forall|i: int| 0 < i <= n implies #[trigger] call_ensures(
        W::is_at_least,
        (more[i], threshold),
        false,
    ) by {
        assert(more[i] == sums[i]);
    }
    assert(add_up(items, more));
    assert(call_ensures(W::over, (a, b), part));
    assert(call_ensures(W::times, (total, part), threshold));
}

proof fn lemma_held<W>(walk: Seq<(usize, W)>, entries: Seq<Entry>)
    ensures
        sampling::held(walk, entries) == walk.filter(is_held::<W>(entries)),
    decreases walk.len(),
{
    reveal(Seq::filter);
    if walk.len() > 0 {
        lemma_held(walk.drop_last(), entries);
        lemma_named(entries, walk.last().0);
    }
}

proof fn lemma_named(entries: Seq<Entry>, key: usize)
    ensures
        scoring::names(entries, key) <==> operations::is_in(entries, CorpusId(key)),
{
    if scoring::names(entries, key) {
        let k = choose|k: int| 0 <= k < entries.len() && (#[trigger] entries[k]).id.0 == key;
        assert(entries[k].id == CorpusId(key));
    }
    if operations::is_in(entries, CorpusId(key)) {
        let k = choose|k: int|
            0 <= k < entries.len() && (#[trigger] entries[k]).id == CorpusId(key);
        assert(entries[k].id.0 == key);
    }
}

proof fn lemma_left<W: Number>(
    walk: Seq<(usize, W)>,
    entries: Seq<Entry>,
    total: W,
    left: W,
)
    requires
        sampling::leaves(walk, entries, total, left),
    ensures
        is_left(total, probabilities(walk.filter(is_gone::<W>(entries))), left),
    decreases walk.len(),
{
    reveal(Seq::filter);
    let items = probabilities(walk.filter(is_gone::<W>(entries)));
    if walk.len() == 0 {
        let steps = seq![total];
        assert(steps.len() == items.len() + 1);
    } else {
        let shorter = walk.drop_last();
        lemma_named(entries, walk.last().0);
        if scoring::names(entries, walk.last().0) {
            lemma_left(shorter, entries, total, left);
        } else {
            let before = choose|before: W|
                sampling::leaves(shorter, entries, total, before) && #[trigger] call_ensures(
                    W::minus,
                    (before, walk.last().1),
                    left,
                );
            lemma_left(shorter, entries, total, before);
            let fewer = probabilities(shorter.filter(is_gone::<W>(entries)));
            let steps = choose|steps: Seq<W>|
                {
                    &&& #[trigger] steps.len() == fewer.len() + 1
                    &&& steps[0] == total
                    &&& forall|i: int|
                        0 <= i < fewer.len() ==> #[trigger] call_ensures(
                            W::minus,
                            (steps[i], fewer[i]),
                            steps[i + 1],
                        )
                    &&& steps[fewer.len() as int] == before
                };
            let more = steps.push(left);
            assert(items =~= fewer.push(walk.last().1));
            assert forall|i: int| 0 <= i < items.len() implies #[trigger] call_ensures(
                W::minus,
                (more[i], items[i]),
                more[i + 1],
            ) by {
                if i < fewer.len() {
                    assert(call_ensures(W::minus, (steps[i], fewer[i]), steps[i + 1]));
                }
            }
            assert(more.len() == items.len() + 1);
        }
    }
}

proof fn lemma_drawn<W: Number>(
    metadata: ProbabilityMetadata<W>,
    entries: Seq<Entry>,
    draw: u64,
    id: CorpusId,
)
    requires
        scheduler::sampled(metadata, entries, draw, id),
    ensures
        is_drawn(metadata, entries, draw, id),
{
    let order = metadata.map.order();
    let held = sampling::held(order, entries);
    let (total, n) = choose|total: W, n: int|
        {
            &&& #[trigger] sampling::leaves(order, entries, metadata.total_probability, total)
            &&& #[trigger] sampling::picks(held, total, draw, n)
            &&& 0 <= n < held.len()
            &&& held[n].0 == id.0
        };
    lemma_held(order, entries);
    lemma_left(order, entries, metadata.total_probability, total);
    lemma_picked(held, total, draw, n);
    assert(is_picked(order.filter(is_held::<W>(entries)), total, draw, n));
}

/// Some testcase of the corpus has a probability.
pub open spec fn has_held<W: Number>(state: State<W>) -> bool {
    exists|key: usize| #[trigger]
        state.metadata->0.map@.dom().contains(key) && operations::is_in(
            state.corpus.entries@,
            CorpusId(key),
        )
}

/// What scheduling for a draw does.
///
/// A recalculation happens if and only if it is wanted: the testcases then have new scores and
/// nothing asks for another one, `finished` was told what the recalculation reports, and what it
/// gave is recorded as the time and the duration. Otherwise nothing of that changes.
///
/// The testcase that the draw picks is returned and recorded as the current one, unless the corpus
/// is empty or nothing that has a probability is in it, which is an error and changes nothing.
pub open spec fn schedules<W: Number, C: FnOnce(RecalcReport) -> (u128, u128)>(
    before: State<W>,
    after: State<W>,
    draw: u64,
    now: u128,
    finished: C,
    result: Result<CorpusId, Error>,
) -> bool {
    let entries = before.corpus.entries@;
    let wanted = operations::is_wanted(before, now);
    if entries.len() == 0 {
        &&& result matches Err(Error::Empty(message)) && message@ == "No entries in corpus"@
        &&& after == before
    } else if !wanted && !has_held(before) {
        &&& result matches Err(Error::IllegalState(message)) && message@
            == "No testcase of the corpus has a probability"@
        &&& after == before
    } else {
        &&& result matches Ok(id) && after.corpus.current == Some(id) && operations::is_in(
            entries,
            id,
        ) && is_drawn(after.metadata->0, entries, draw, id)
        &&& after.corpus.entries == before.corpus.entries
        &&& after.metadata is Some
        &&& if wanted {
            &&& rescores(entries, after.metadata->0)
            &&& !after.metadata->0.needs_recalc
            &&& after.neighbours is Some
            &&& operations::follows(before.neighbours->0, after.neighbours->0, entries)
            &&& exists|report: RecalcReport| #[trigger]
                reports::<W>(entries, report) && call_ensures(
                    finished,
                    (report,),
                    (after.metadata->0.last_recalc_time, after.metadata->0.last_recalc_duration),
                )
        } else {
            &&& after.metadata == before.metadata
            &&& after.neighbours == before.neighbours
        }
    }
}

proof fn lemma_candidate<W: Number>(state: State<W>)
    ensures
        scheduler::has_candidate(state) <==> has_held(state),
{
    let map = state.metadata->0.map@;
    let entries = state.corpus.entries@;
    if scheduler::has_candidate(state) {
        let key = choose|key: usize| #[trigger]
            map.dom().contains(key) && scoring::names(entries, key);
        lemma_named(entries, key);
    }
    if has_held(state) {
        let key = choose|key: usize| #[trigger]
            map.dom().contains(key) && operations::is_in(entries, CorpusId(key));
        lemma_named(entries, key);
    }
}

pub(crate) proof fn lemma_schedules<W: Number, C: FnOnce(RecalcReport) -> (u128, u128)>(
    before: State<W>,
    after: State<W>,
    draw: u64,
    now: u128,
    finished: C,
    result: Result<CorpusId, Error>,
)
    requires
        before.corpus.entries@.len() > 0,
        operations::are_distinct(before.corpus.entries@),
        operations::is_wanted(before, now) ==> operations::is_complete(before),
        scheduler::scheduled_if_held(before, after, draw, now, finished, result),
    ensures
        schedules(before, after, draw, now, finished, result),
{
    let entries = before.corpus.entries@;
    lemma_candidate(before);
    if result is Ok {
        let id = result->Ok_0;
        operations::lemma_is_in(before.corpus, id);
        operations::lemma_is_in(after.corpus, id);
        lemma_drawn(after.metadata->0, entries, draw, id);
        if operations::is_wanted(before, now) {
            assert forall|i: int| 0 <= i < entries.len() implies (
            #[trigger] entries[i]).testcase.exec_time is Some by {}
            operations::lemma_follows(before.neighbours->0, after.neighbours->0, entries);
            lemma_rescores(entries, after.metadata->0);
            let report = choose|report: RecalcReport|
                {
                    &&& #[trigger] scheduler::reports::<W>(report, entries)
                    &&& call_ensures(
                        finished,
                        (report,),
                        (
                            after.metadata->0.last_recalc_time,
                            after.metadata->0.last_recalc_duration,
                        ),
                    )
                };
            lemma_reports::<W>(entries, report);
        }
    }
}

/// Scheduling for a draw recalculates if and only if that is wanted, and picks the testcase for
/// that draw.
pub proof fn scheduling_picks_for_the_draw<
    F: TestcaseScore<W>,
    W: Number,
    C: FnOnce(RecalcReport) -> (u128, u128),
>(
    scheduler: &mut ProbabilitySamplingScheduler<F, W>,
    state: &mut State<W>,
    draw: u64,
    now: u128,
    finished: C,
    result: Result<CorpusId, Error>,
)
    requires
        operations::are_distinct(old(state).corpus.entries@),
        operations::is_wanted(*old(state), now) ==> operations::is_complete(*old(state)),
        call_ensures(
            ProbabilitySamplingScheduler::<F, W>::next_for_draw::<C>,
            (scheduler, state, draw, now, finished),
            result,
        ),
    ensures
        schedules(*old(state), *final(state), draw, now, finished, result),
{
    if old(state).corpus.entries@.len() > 0 {
        lemma_schedules(*old(state), *final(state), draw, now, finished, result);
    }
}

} // verus!
