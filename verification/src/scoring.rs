//! The score of each testcase.

use vstd::prelude::*;

use crate::collections::{IndexMap, IndexSet};
use crate::favored;
use crate::favored::RecalcReport;
use crate::model;
use crate::model::{Entry, ProbabilityMetadata, Reachability};
use crate::numbers::Number;
use crate::ordering;
use crate::reachable;
use crate::reachable::{ReachableBlocksResult, Visit};
use crate::sampling;
use crate::table;
use crate::table::Table;

verus! {

/// What a direct neighbour keeps of its weight for each time it was fuzzed, in ten thousandths.
pub const BACKOFF_TEN_THOUSANDTHS: u128 = 9999;

/// The unit of [`BACKOFF_TEN_THOUSANDTHS`].
pub const TEN_THOUSAND: u128 = 10000;

/// How many mutations count as having fuzzed a direct neighbour once.
pub const MUTATIONS_PER_DECREMENT: usize = 100;

/// The weight of a direct neighbour was computed from how often it was mutated: the more it has
/// been fuzzed, the less it is worth.
pub open spec fn is_weight<W: Number>(mutations: usize, weight: W) -> bool {
    exists|numerator: W, denominator: W, base: W|
        {
            &&& call_ensures(W::of_integer, (BACKOFF_TEN_THOUSANDTHS,), numerator)
            &&& call_ensures(W::of_integer, (TEN_THOUSAND,), denominator)
            &&& #[trigger] call_ensures(W::over, (numerator, denominator), base)
            &&& #[trigger] call_ensures(
                W::to_the,
                (base, (mutations / MUTATIONS_PER_DECREMENT) as i32),
                weight,
            )
        }
}

/// The rarity of a reachability was computed as one divided by the number of times it occurs.
pub open spec fn is_rarity<W: Number>(frequency: nat, rarity: W) -> bool {
    exists|one: W, times: W|
        {
            &&& call_ensures(W::of_integer, (1,), one)
            &&& call_ensures(W::of_integer, (frequency as u128,), times)
            &&& #[trigger] call_ensures(W::over, (one, times), rarity)
        }
}

/// What a reachability adds to the score of a testcase was computed: the weight of the direct
/// neighbour that it goes through, multiplied by its rarity and divided by its depth.
pub open spec fn is_term<W: Number>(r: Reachability, visits: Seq<Visit>, term: W) -> bool {
    let mutations = reachable::direct_mutations(visits, r.direct_neighbour_ancestor_index);
    exists|weight: W, rarity: W, weighed: W, one: W, scaled: W, depth: W|
        {
            &&& #[trigger] is_weight(mutations as usize, weight)
            &&& #[trigger] is_rarity(reachable::frequency(visits, r), rarity)
            &&& #[trigger] call_ensures(W::times, (weight, rarity), weighed)
            &&& call_ensures(W::of_integer, (1,), one)
            &&& #[trigger] call_ensures(W::times, (weighed, one), scaled)
            &&& call_ensures(W::of_integer, (r.depth as u128,), depth)
            &&& #[trigger] call_ensures(W::over, (scaled, depth), term)
        }
}

/// What the reachabilities of a testcase add was added up, one after the other.
pub open spec fn is_neighbour_score<W: Number>(
    list: Seq<Reachability>,
    visits: Seq<Visit>,
    score: W,
) -> bool
    decreases list.len(),
{
    if list.len() == 0 {
        call_ensures(W::of_integer, (0,), score)
    } else {
        exists|before: W, term: W|
            {
                &&& is_neighbour_score(list.drop_last(), visits, before)
                &&& is_term(list.last(), visits, term)
                &&& #[trigger] call_ensures(W::plus, (before, term), score)
            }
    }
}

/// The direct neighbour that each reachability goes through is one of some testcase.
pub open spec fn ancestors_known(entries: Seq<Entry>) -> bool {
    let visits = reachable::visits(entries);
    forall|j: int|
        0 <= j < visits.len() ==> reachable::has_direct(
            visits,
            (#[trigger] visits[j]).reachability.direct_neighbour_ancestor_index,
        )
}

/// The weights of the direct neighbours.
fn backoff_weightings<W: Number>(mutations: &IndexMap) -> (weighting: Table<W>)
    ensures
        weighting.wf(),
        weighting@.dom() == mutations@.dom(),
        forall|index: usize| #[trigger]
            mutations@.dom().contains(index) ==> is_weight(mutations@[index], weighting@[index]),
{
    let mut weighting: Table<W> = Table::new();
    let entries = mutations.entries();
    for n in 0..entries.len()
        invariant
            weighting.wf(),
            forall|i: int|
                0 <= i < entries@.len() ==> mutations@.dom().contains((#[trigger] entries@[i]).0)
                    && mutations@[entries@[i].0] == entries@[i].1,
            forall|i: int, j: int|
                0 <= i < j < entries@.len() ==> (#[trigger] entries@[i]).0 != (
                #[trigger] entries@[j]).0,
            forall|i: int| 0 <= i < n ==> weighting@.dom().contains((#[trigger] entries@[i]).0),
            forall|index: usize| #[trigger]
                weighting@.dom().contains(index) ==> mutations@.dom().contains(index),
            forall|i: int|
                0 <= i < n ==> is_weight(
                    (#[trigger] entries@[i]).1,
                    weighting@[entries@[i].0],
                ),
    {
        let entry = entries[n];
        let decrements: usize = entry.1 / MUTATIONS_PER_DECREMENT;
        let base = W::of_integer(BACKOFF_TEN_THOUSANDTHS).over(W::of_integer(TEN_THOUSAND));
        let weight = base.to_the(decrements as i32);
        weighting.insert(entry.0, weight);
        assert(is_weight(entry.1, weight));
    }
    assert forall|index: usize| #[trigger] mutations@.dom().contains(index) implies {
        &&& weighting@.dom().contains(index)
        &&& is_weight(mutations@[index], weighting@[index])
    } by {
        let i = choose|i: int| 0 <= i < entries@.len() && (#[trigger] entries@[i]).0 == index;
        assert(entries@[i].0 == index);
    }
    assert(weighting@.dom() =~= mutations@.dom());
    weighting
}

/// What the reachabilities of one testcase add up to.
fn score_entry<W: Number>(
    entries: &Vec<Entry>,
    n: usize,
    tallies: &ReachableBlocksResult,
    weighting: &Table<W>,
) -> (score: W)
    requires
        n < entries@.len(),
        tallies.tallies(reachable::visits(entries@)),
        ancestors_known(entries@),
        weighting.wf(),
        weighting@.dom() == tallies.direct_neighbour_mutations_for_index@.dom(),
        forall|index: usize| #[trigger]
            tallies.direct_neighbour_mutations_for_index@.dom().contains(index) ==> is_weight(
                tallies.direct_neighbour_mutations_for_index@[index],
                weighting@[index],
            ),
    ensures
        is_neighbour_score(
            entries@[n as int].testcase.reachabilities@,
            reachable::visits(entries@),
            score,
        ),
{
    let ghost visits = reachable::visits(entries@);
    let list = &entries[n].testcase.reachabilities;
    let mut score = W::of_integer(0);
    assert(list@.take(0) =~= Seq::empty());
    for j in 0..list.len()
        invariant
            n < entries@.len(),
            visits == reachable::visits(entries@),
            list@ == entries@[n as int].testcase.reachabilities@,
            tallies.tallies(visits),
            ancestors_known(entries@),
            weighting.wf(),
            weighting@.dom() == tallies.direct_neighbour_mutations_for_index@.dom(),
            forall|index: usize| #[trigger]
                tallies.direct_neighbour_mutations_for_index@.dom().contains(index) ==> is_weight(
                    tallies.direct_neighbour_mutations_for_index@[index],
                    weighting@[index],
                ),
            is_neighbour_score(list@.take(j as int), visits, score),
    {
        let r = list[j];
        let ancestor = r.direct_neighbour_ancestor_index;
        proof {
            reachable::lemma_is_visited(entries@, n as int, j as int);
            let v = choose|v: int| 0 <= v < visits.len() && (#[trigger] visits[v]).reachability == r;
            assert(visits[v].reachability == r);
            reachable::lemma_frequency_positive(visits, v);
            assert(tallies.frequency_for_reachability@.dom().contains(reachable::key_of(r)));
            assert(tallies.direct_neighbour_mutations_for_index@.dom().contains(ancestor));
            assert(weighting@.dom().contains(ancestor));
            assert(list@.take(j + 1).drop_last() =~= list@.take(j as int));
            assert(list@.take(j + 1).last() == r);
        }
        match (
            tallies.frequency_for_reachability.get((r.index, r.depth, ancestor)),
            weighting.get(ancestor),
        ) {
            (Some(frequency), Some(weight)) => {
                let ghost before = score;
                let rarity = W::of_integer(1).over(W::of_integer(frequency as u128));
                let scaled = weight.times(rarity).times(W::of_integer(1));
                let term = scaled.over(W::of_integer(r.depth as u128));
                score = score.plus(term);
                proof {
                    assert(is_weight(
                        reachable::direct_mutations(visits, ancestor) as usize,
                        weight,
                    ));
                    assert(is_rarity(reachable::frequency(visits, r), rarity));
                    assert(is_term(r, visits, term));
                    assert(is_neighbour_score(list@.take(j as int), visits, before));
                }
            },
            _ => {
                assert(false);
            },
        }
    }
    assert(list@.take(list@.len() as int) =~= list@);
    score
}

/// How long a testcase took to execute.
pub open spec fn time_of(entry: Entry) -> u128 {
    match entry.testcase.exec_time {
        Some(nanos) => nanos,
        None => 0,
    }
}

/// The execution time of the fastest testcase.
pub open spec fn min_time(entries: Seq<Entry>) -> u128
    decreases entries.len(),
{
    if entries.len() == 0 {
        u128::MAX
    } else {
        let before = min_time(entries.drop_last());
        if time_of(entries.last()) < before {
            time_of(entries.last())
        } else {
            before
        }
    }
}

/// The covered indexes and the execution time of every testcase are recorded.
pub open spec fn runs_recorded(entries: Seq<Entry>) -> bool {
    forall|i: int|
        0 <= i < entries.len() ==> (#[trigger] entries[i]).testcase.indexes is Some
            && entries[i].testcase.exec_time is Some
}

/// Whether the covered indexes and the execution time of every testcase are recorded.
pub fn are_runs_recorded(entries: &Vec<Entry>) -> (recorded: bool)
    ensures
        recorded == runs_recorded(entries@),
{
    for n in 0..entries.len()
        invariant
            forall|i: int|
                0 <= i < n ==> (#[trigger] entries@[i]).testcase.indexes is Some
                    && entries@[i].testcase.exec_time is Some,
    {
        if entries[n].testcase.indexes.is_none() || entries[n].testcase.exec_time.is_none() {
            return false;
        }
    }
    true
}

/// Whether the direct neighbour that each reachability goes through is one of some testcase.
pub fn are_ancestors_known(entries: &Vec<Entry>, tallies: &ReachableBlocksResult) -> (known: bool)
    requires
        tallies.tallies(reachable::visits(entries@)),
    ensures
        known == ancestors_known(entries@),
{
    let ghost visits = reachable::visits(entries@);
    for n in 0..entries.len()
        invariant
            visits == reachable::visits(entries@),
            tallies.tallies(visits),
            forall|i: int, j: int|
                #![trigger entries@[i].testcase.reachabilities@[j]]
                0 <= i < n && 0 <= j < entries@[i].testcase.reachabilities@.len()
                    ==> reachable::has_direct(
                    visits,
                    entries@[i].testcase.reachabilities@[j].direct_neighbour_ancestor_index,
                ),
    {
        let list = &entries[n].testcase.reachabilities;
        for m in 0..list.len()
            invariant
                n < entries@.len(),
                list@ == entries@[n as int].testcase.reachabilities@,
                visits == reachable::visits(entries@),
                tallies.tallies(visits),
                forall|j: int|
                    0 <= j < m ==> reachable::has_direct(
                        visits,
                        (#[trigger] entries@[n as int].testcase.reachabilities@[j]).direct_neighbour_ancestor_index,
                    ),
        {
            let ancestor = list[m].direct_neighbour_ancestor_index;
            proof {
                reachable::lemma_is_visited(entries@, n as int, m as int);
                assert(tallies.direct_neighbour_mutations_for_index@.dom().contains(ancestor)
                    == reachable::has_direct(visits, ancestor));
            }
            if tallies.direct_neighbour_mutations_for_index.get(ancestor).is_none() {
                return false;
            }
        }
    }
    proof {
        assert forall|v: int| 0 <= v < visits.len() implies reachable::has_direct(
            visits,
            (#[trigger] visits[v]).reachability.direct_neighbour_ancestor_index,
        ) by {
            reachable::lemma_visit_source(entries@, v);
        }
    }
    true
}

pub(crate) fn time_of_entry(entry: &Entry) -> (nanos: u128)
    ensures
        nanos == time_of(*entry),
{
    match entry.testcase.exec_time {
        Some(nanos) => nanos,
        None => 0,
    }
}

fn least_time(entries: &Vec<Entry>) -> (least: u128)
    ensures
        least == min_time(entries@),
{
    let mut least: u128 = u128::MAX;
    for n in 0..entries.len()
        invariant
            least == min_time(entries@.take(n as int)),
    {
        let nanos = time_of_entry(&entries[n]);
        if nanos < least {
            least = nanos;
        }
        proof {
            assert(entries@.take(n + 1).drop_last() =~= entries@.take(n as int));
            assert(entries@.take(n + 1).last() == entries@[n as int]);
        }
    }
    assert(entries@.take(entries@.len() as int) =~= entries@);
    least
}

/// The score of a testcase was computed: what its reachabilities add up to, weighed by how fast it
/// is compared to the fastest testcase.
pub open spec fn is_score<W: Number>(entries: Seq<Entry>, k: int, score: W) -> bool {
    exists|neighbour_score: W, least: W, exec_time: W, time_weighting: W|
        {
            &&& #[trigger] is_neighbour_score(
                entries[k].testcase.reachabilities@,
                reachable::visits(entries),
                neighbour_score,
            )
            &&& call_ensures(W::of_integer, (min_time(entries),), least)
            &&& call_ensures(W::of_integer, (time_of(entries[k]),), exec_time)
            &&& #[trigger] call_ensures(W::over, (least, exec_time), time_weighting)
            &&& #[trigger] call_ensures(W::times, (neighbour_score, time_weighting), score)
        }
}

/// Some testcase has that name.
pub open spec fn names(entries: Seq<Entry>, key: usize) -> bool {
    exists|k: int| 0 <= k < entries.len() && (#[trigger] entries[k]).id.0 == key
}

/// The names of the testcases.
pub fn names_of(entries: &Vec<Entry>) -> (set: IndexSet)
    ensures
        forall|key: usize| #[trigger] set@.contains(key) == names(entries@, key),
{
    let mut set = IndexSet::new();
    for n in 0..entries.len()
        invariant
            forall|key: usize| #[trigger]
                set@.contains(key) == names(entries@.take(n as int), key),
    {
        let ghost before = set@;
        set.insert(entries[n].id.0);
        assert forall|key: usize| #[trigger] set@.contains(key) == names(
            entries@.take(n + 1),
            key,
        ) by {
            assert(before.contains(key) == names(entries@.take(n as int), key));
            lemma_names_step(entries@, n as int, key);
        }
    }
    assert(entries@.take(entries@.len() as int) =~= entries@);
    set
}

proof fn lemma_names_step(entries: Seq<Entry>, n: int, key: usize)
    requires
        0 <= n < entries.len(),
    ensures
        names(entries.take(n + 1), key) == (names(entries.take(n), key) || key
            == entries[n].id.0),
{
    let before = entries.take(n);
    let after = entries.take(n + 1);
    if names(before, key) {
        let k = choose|k: int| 0 <= k < before.len() && (#[trigger] before[k]).id.0 == key;
        assert(after[k].id.0 == key);
    }
    if key == entries[n].id.0 {
        assert(after[n].id.0 == key);
    }
    if names(after, key) && key != entries[n].id.0 {
        let k = choose|k: int| 0 <= k < after.len() && (#[trigger] after[k]).id.0 == key;
        assert(before[k].id.0 == key);
    }
}

/// The testcases of the corpus have their scores as their probabilities, and nothing else has one;
/// the total is the sum of the probabilities. The testcases are walked as the corpus lists them.
pub open spec fn rescored<W: Number>(
    map: Map<usize, W>,
    order: Seq<(usize, W)>,
    total: W,
    entries: Seq<Entry>,
) -> bool {
    &&& forall|key: usize| #[trigger] map.dom().contains(key) == names(entries, key)
    &&& order.len() == entries.len()
    &&& forall|k: int|
        0 <= k < entries.len() ==> {
            &&& (#[trigger] order[k]).0 == entries[k].id.0
            &&& map[entries[k].id.0] == order[k].1
            &&& is_score(entries, k, order[k].1)
        }
    &&& sampling::sums_to(order, order.len(), total)
}

/// Gives every testcase its score as its probability, and nothing else one.
pub fn rescore<W: Number>(
    metadata: &mut ProbabilityMetadata<W>,
    entries: &Vec<Entry>,
    tallies: &ReachableBlocksResult,
) -> (report: RecalcReport)
    requires
        old(metadata).wf(),
        model::distinct_ids(entries@),
        tallies.tallies(reachable::visits(entries@)),
        ancestors_known(entries@),
    ensures
        final(metadata).wf(),
        rescored(
            final(metadata).map@,
            final(metadata).map.order(),
            final(metadata).total_probability,
            entries@,
        ),
        final(metadata).needs_recalc == old(metadata).needs_recalc,
        final(metadata).last_recalc_time == old(metadata).last_recalc_time,
        final(metadata).last_recalc_duration == old(metadata).last_recalc_duration,
        report.corpus_size == entries@.len(),
        exists|order: Seq<usize>|
            {
                &&& ordering::is_permutation(order, entries@.len())
                &&& ordering::is_ordered::<W>(order, entries@)
                &&& report.tells(
                    #[trigger] favored::selection(entries@, reachable::visits(entries@), order),
                )
            },
{
    let order = ordering::order_by_runtime::<W>(entries);
    let weighting = backoff_weightings::<W>(&tallies.direct_neighbour_mutations_for_index);
    let report = favored::select_favored(entries, &order, &tallies.least_depth_for_index);
    let least = least_time(entries);
    let mut map: Table<W> = Table::new();
    let mut total = W::of_integer(0);
    for n in 0..entries.len()
        invariant
            model::distinct_ids(entries@),
            tallies.tallies(reachable::visits(entries@)),
            ancestors_known(entries@),
            least == min_time(entries@),
            weighting.wf(),
            weighting@.dom() == tallies.direct_neighbour_mutations_for_index@.dom(),
            forall|index: usize| #[trigger]
                tallies.direct_neighbour_mutations_for_index@.dom().contains(index) ==> is_weight(
                    tallies.direct_neighbour_mutations_for_index@[index],
                    weighting@[index],
                ),
            map.wf(),
            map.order().len() == n,
            forall|k: int|
                0 <= k < n ==> (#[trigger] map.order()[k]).0 == entries@[k].id.0 && is_score(
                    entries@,
                    k,
                    map.order()[k].1,
                ),
            sampling::sums_to(map.order(), n as nat, total),
    {
        let ghost before = map.order();
        let ghost old_total = total;
        let neighbour_score = score_entry(entries, n, tallies, &weighting);
        let exec_time = W::of_integer(time_of_entry(&entries[n]));
        let time_weighting = W::of_integer(least).over(exec_time);
        let score = neighbour_score.times(time_weighting);
        total = total.plus(score);
        map.insert(entries[n].id.0, score);
        proof {
            let id = entries@[n as int].id.0;
            assert(is_score(entries@, n as int, score));
            assert(!table::has_key(before, id)) by {
                if table::has_key(before, id) {
                    let k = choose|k: int| 0 <= k < before.len() && (#[trigger] before[k]).0 == id;
                    assert(entries@[k].id != entries@[n as int].id);
                }
            }
            assert(map.order() == before.push((id, score)));
            assert forall|k: int| 0 <= k < n + 1 implies (#[trigger] map.order()[k]).0
                == entries@[k].id.0 && is_score(entries@, k, map.order()[k].1) by {
                if k < n {
                    assert(map.order()[k] == before[k]);
                }
            }
            sampling::lemma_sums_prefix(before, map.order(), n as nat, old_total);
            sampling::lemma_sums_step(map.order(), n as nat, old_total, total);
        }
    }
    proof {
        map.lemma_order();
        assert forall|key: usize| #[trigger] map@.dom().contains(key) == names(entries@, key) by {
            if map@.dom().contains(key) {
                let k = choose|k: int|
                    0 <= k < map.order().len() && (#[trigger] map.order()[k]).0 == key;
                assert(entries@[k].id.0 == key);
            }
            if names(entries@, key) {
                let k = choose|k: int|
                    0 <= k < entries@.len() && (#[trigger] entries@[k]).id.0 == key;
                assert(map.order()[k].0 == key);
            }
        }
    }
    metadata.map = map;
    metadata.total_probability = total;
    report
}

} // verus!
