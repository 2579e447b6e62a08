//! What holds of the scheduler whatever numbers it computes in.

use vstd::prelude::*;

use crate::favored;
use crate::favored::RecalcReport;
use crate::model;
use crate::model::{
    CorpusId, Entry, Error, MapNeighboursFeedbackMetadata, ProbabilityMetadata, Reachability,
    State, Testcase,
};
use crate::numbers;
use crate::numbers::Number;
use crate::ordering;
use crate::reachable;
use crate::sampling;
use crate::scheduler;
use crate::scheduler::{ProbabilitySamplingScheduler, TestcaseScore};
use crate::scoring;

verus! {

/// Going through the same corpus again changes nothing: no testcase is new any more.
pub proof fn going_through_the_corpus_again_changes_nothing(
    before: MapNeighboursFeedbackMetadata,
    once: MapNeighboursFeedbackMetadata,
    twice: MapNeighboursFeedbackMetadata,
    entries: Seq<Entry>,
)
    requires
        reachable::neighbours_updated(before, once, entries),
        reachable::neighbours_updated(once, twice, entries),
    ensures
        twice.reachable_blocks@ == once.reachable_blocks@,
        twice.corpus_ids_present_at_recalc@ == once.corpus_ids_present_at_recalc@,
{
    let known = once.corpus_ids_present_at_recalc@;
    assert forall|i: int| 0 <= i < entries.len() implies known.contains(
        (#[trigger] entries[i]).id,
    ) by {
        assert(known[i] == entries[i].id);
    }
    lemma_known_entries_change_nothing(once.reachable_blocks@, entries, known);
}

proof fn lemma_known_entries_change_nothing(
    blocks: Set<usize>,
    entries: Seq<Entry>,
    known: Seq<CorpusId>,
)
    requires
        forall|i: int| 0 <= i < entries.len() ==> known.contains((#[trigger] entries[i]).id),
    ensures
        reachable::reachable_after(blocks, entries, known) == blocks,
    decreases entries.len(),
{
    if entries.len() > 0 {
        let shorter = entries.drop_last();
        assert forall|i: int| 0 <= i < shorter.len() implies known.contains(
            (#[trigger] shorter[i]).id,
        ) by {
            assert(shorter[i] == entries[i]);
        }
        lemma_known_entries_change_nothing(blocks, shorter, known);
        assert(known.contains(entries[entries.len() - 1].id));
    }
}

/// A second recalculation leaves the probabilities, their order, the total and what is known of the
/// neighbours as the first one left them, where each operation gives one result.
pub proof fn recalculating_again_changes_nothing<W: Number>(
    before: State<W>,
    once: State<W>,
    twice: State<W>,
)
    requires
        numbers::functional::<W>(),
        scheduler::recalculated(before, once),
        scheduler::recalculated(once, twice),
    ensures
        twice.corpus == once.corpus,
        twice.metadata->0.map@ == once.metadata->0.map@,
        twice.metadata->0.map.order() == once.metadata->0.map.order(),
        twice.metadata->0.total_probability == once.metadata->0.total_probability,
        twice.neighbours->0.covered_blocks == once.neighbours->0.covered_blocks,
        twice.neighbours->0.reachable_blocks@ == once.neighbours->0.reachable_blocks@,
        twice.neighbours->0.corpus_ids_present_at_recalc@
            == once.neighbours->0.corpus_ids_present_at_recalc@,
{
    let entries = before.corpus.entries@;
    going_through_the_corpus_again_changes_nothing(
        before.neighbours->0,
        once.neighbours->0,
        twice.neighbours->0,
        entries,
    );
    lemma_scored_alike::<W>(
        entries,
        once.metadata->0.map@,
        once.metadata->0.map.order(),
        once.metadata->0.total_probability,
        entries,
        twice.metadata->0.map@,
        twice.metadata->0.map.order(),
        twice.metadata->0.total_probability,
    );
}

/// The corpora are equal but for the lengths of the inputs.
pub open spec fn equal_but_for_lengths(a: Seq<Entry>, b: Seq<Entry>) -> bool {
    &&& a.len() == b.len()
    &&& forall|k: int|
        #![trigger a[k]]
        #![trigger b[k]]
        0 <= k < a.len() ==> b[k] == (Entry {
            testcase: Testcase { len: b[k].testcase.len, ..a[k].testcase },
            ..a[k]
        })
}

/// The length of an input influences no probability and no total, where each operation gives one
/// result: recalculations of states that are equal but for the lengths of the inputs leave the
/// same.
pub proof fn lengths_do_not_influence_scores<W: Number>(
    a: State<W>,
    scored_a: State<W>,
    b: State<W>,
    scored_b: State<W>,
)
    requires
        numbers::functional::<W>(),
        scheduler::recalculated(a, scored_a),
        scheduler::recalculated(b, scored_b),
        equal_but_for_lengths(a.corpus.entries@, b.corpus.entries@),
    ensures
        scored_b.metadata->0.map@ == scored_a.metadata->0.map@,
        scored_b.metadata->0.map.order() == scored_a.metadata->0.map.order(),
        scored_b.metadata->0.total_probability == scored_a.metadata->0.total_probability,
{
    let x = a.corpus.entries@;
    let y = b.corpus.entries@;
    assert forall|k: int| 0 <= k < x.len() implies is_scored_alike(
        #[trigger] x[k],
        y[k],
    ) by {}
    lemma_scored_alike::<W>(
        x,
        scored_a.metadata->0.map@,
        scored_a.metadata->0.map.order(),
        scored_a.metadata->0.total_probability,
        y,
        scored_b.metadata->0.map@,
        scored_b.metadata->0.map.order(),
        scored_b.metadata->0.total_probability,
    );
}

/// What the score is computed from is the same for both testcases.
spec fn is_scored_alike(a: Entry, b: Entry) -> bool {
    &&& a.id == b.id
    &&& scoring::time_of(a) == scoring::time_of(b)
    &&& reachable::mutations_of(a) == reachable::mutations_of(b)
    &&& a.testcase.reachabilities@ == b.testcase.reachabilities@
}

/// Corpora that are scored alike get the same probabilities, in the same order, and the same
/// total.
proof fn lemma_scored_alike<W: Number>(
    a: Seq<Entry>,
    map_a: Map<usize, W>,
    order_a: Seq<(usize, W)>,
    total_a: W,
    b: Seq<Entry>,
    map_b: Map<usize, W>,
    order_b: Seq<(usize, W)>,
    total_b: W,
)
    requires
        numbers::functional::<W>(),
        a.len() == b.len(),
        forall|k: int| 0 <= k < a.len() ==> is_scored_alike(#[trigger] a[k], b[k]),
        scoring::rescored(map_a, order_a, total_a, a),
        scoring::rescored(map_b, order_b, total_b, b),
    ensures
        map_a == map_b,
        order_a == order_b,
        total_a == total_b,
{
    lemma_visits_alike(a, b);
    assert forall|k: int| 0 <= k < order_a.len() implies order_a[k] == order_b[k] by {
        assert(is_scored_alike(a[k], b[k]));
        assert(order_a[k].0 == a[k].id.0 && order_b[k].0 == b[k].id.0);
        lemma_one_score(a, b, k, order_a[k].1, order_b[k].1);
    }
    assert(order_a =~= order_b);
    lemma_one_total(order_a, order_a.len(), total_a, total_b);
    assert forall|key: usize|
        #![trigger map_a.dom().contains(key)]
        #![trigger map_b.dom().contains(key)]
        map_a.dom().contains(key) == map_b.dom().contains(key) && (map_a.dom().contains(key)
            ==> map_a[key] == map_b[key]) by {
        assert(map_a.dom().contains(key) == scoring::names(a, key));
        assert(map_b.dom().contains(key) == scoring::names(b, key));
        if scoring::names(a, key) {
            let k = choose|k: int| 0 <= k < a.len() && (#[trigger] a[k]).id.0 == key;
            assert(is_scored_alike(a[k], b[k]));
            assert(b[k].id.0 == key);
            assert(order_a[k].1 == map_a[key] && order_b[k].1 == map_b[key]);
        }
        if scoring::names(b, key) {
            let k = choose|k: int| 0 <= k < b.len() && (#[trigger] b[k]).id.0 == key;
            assert(is_scored_alike(a[k], b[k]));
            assert(a[k].id.0 == key);
        }
    }
    assert(map_a.dom() =~= map_b.dom());
    assert(map_a =~= map_b);
}

/// Corpora that are scored alike have the same visits and the same least time.
proof fn lemma_visits_alike(a: Seq<Entry>, b: Seq<Entry>)
    requires
        a.len() == b.len(),
        forall|k: int| 0 <= k < a.len() ==> is_scored_alike(#[trigger] a[k], b[k]),
    ensures
        reachable::visits(a) == reachable::visits(b),
        scoring::min_time(a) == scoring::min_time(b),
    decreases a.len(),
{
    if a.len() > 0 {
        let x = a.drop_last();
        let y = b.drop_last();
        assert forall|k: int| 0 <= k < x.len() implies is_scored_alike(#[trigger] x[k], y[k]) by {
            assert(is_scored_alike(a[k], b[k]));
        }
        lemma_visits_alike(x, y);
        assert(is_scored_alike(a[a.len() - 1], b[b.len() - 1]));
        assert(reachable::entry_visits(a.last()) =~= reachable::entry_visits(b.last()));
    }
}

proof fn lemma_one_total<W: Number>(walk: Seq<(usize, W)>, n: nat, a: W, b: W)
    requires
        numbers::functional::<W>(),
        sampling::sums_to(walk, n, a),
        sampling::sums_to(walk, n, b),
    ensures
        a == b,
    decreases n,
{
    if n > 0 {
        let x = choose|before: W|
            sampling::sums_to(walk, (n - 1) as nat, before) && #[trigger] call_ensures(
                W::plus,
                (before, walk[n - 1].1),
                a,
            );
        let y = choose|before: W|
            sampling::sums_to(walk, (n - 1) as nat, before) && #[trigger] call_ensures(
                W::plus,
                (before, walk[n - 1].1),
                b,
            );
        lemma_one_total(walk, (n - 1) as nat, x, y);
    }
}

proof fn lemma_one_weight<W: Number>(mutations: usize, a: W, b: W)
    requires
        numbers::functional::<W>(),
        scoring::is_weight(mutations, a),
        scoring::is_weight(mutations, b),
    ensures
        a == b,
{
}

proof fn lemma_one_rarity<W: Number>(frequency: nat, a: W, b: W)
    requires
        numbers::functional::<W>(),
        scoring::is_rarity(frequency, a),
        scoring::is_rarity(frequency, b),
    ensures
        a == b,
{
}

proof fn lemma_one_term<W: Number>(
    r: Reachability,
    visits: Seq<reachable::Visit>,
    a: W,
    b: W,
)
    requires
        numbers::functional::<W>(),
        scoring::is_term(r, visits, a),
        scoring::is_term(r, visits, b),
    ensures
        a == b,
{
    let mutations = reachable::direct_mutations(visits, r.direct_neighbour_ancestor_index);
    let frequency = reachable::frequency(visits, r);
    let (weight_a, rarity_a, weighed_a, one_a, scaled_a, depth_a) = choose|
        weight: W,
        rarity: W,
        weighed: W,
        one: W,
        scaled: W,
        depth: W,
    |
        {
            &&& #[trigger] scoring::is_weight(mutations as usize, weight)
            &&& #[trigger] scoring::is_rarity(frequency, rarity)
            &&& #[trigger] call_ensures(W::times, (weight, rarity), weighed)
            &&& call_ensures(W::of_integer, (1,), one)
            &&& #[trigger] call_ensures(W::times, (weighed, one), scaled)
            &&& call_ensures(W::of_integer, (r.depth as u128,), depth)
            &&& #[trigger] call_ensures(W::over, (scaled, depth), a)
        };
    let (weight_b, rarity_b, weighed_b, one_b, scaled_b, depth_b) = choose|
        weight: W,
        rarity: W,
        weighed: W,
        one: W,
        scaled: W,
        depth: W,
    |
        {
            &&& #[trigger] scoring::is_weight(mutations as usize, weight)
            &&& #[trigger] scoring::is_rarity(frequency, rarity)
            &&& #[trigger] call_ensures(W::times, (weight, rarity), weighed)
            &&& call_ensures(W::of_integer, (1,), one)
            &&& #[trigger] call_ensures(W::times, (weighed, one), scaled)
            &&& call_ensures(W::of_integer, (r.depth as u128,), depth)
            &&& #[trigger] call_ensures(W::over, (scaled, depth), b)
        };
    lemma_one_weight(mutations as usize, weight_a, weight_b);
    lemma_one_rarity(frequency, rarity_a, rarity_b);
    assert(weighed_a == weighed_b);
    assert(scaled_a == scaled_b);
}

proof fn lemma_one_neighbour_score<W: Number>(
    list: Seq<Reachability>,
    visits: Seq<reachable::Visit>,
    a: W,
    b: W,
)
    requires
        numbers::functional::<W>(),
        scoring::is_neighbour_score(list, visits, a),
        scoring::is_neighbour_score(list, visits, b),
    ensures
        a == b,
    decreases list.len(),
{
    if list.len() > 0 {
        let (before_a, term_a) = choose|before: W, term: W|
            {
                &&& scoring::is_neighbour_score(list.drop_last(), visits, before)
                &&& scoring::is_term(list.last(), visits, term)
                &&& #[trigger] call_ensures(W::plus, (before, term), a)
            };
        let (before_b, term_b) = choose|before: W, term: W|
            {
                &&& scoring::is_neighbour_score(list.drop_last(), visits, before)
                &&& scoring::is_term(list.last(), visits, term)
                &&& #[trigger] call_ensures(W::plus, (before, term), b)
            };
        lemma_one_neighbour_score(list.drop_last(), visits, before_a, before_b);
        lemma_one_term(list.last(), visits, term_a, term_b);
    }
}

proof fn lemma_one_score<W: Number>(a: Seq<Entry>, b: Seq<Entry>, k: int, x: W, y: W)
    requires
        numbers::functional::<W>(),
        0 <= k < a.len(),
        is_scored_alike(a[k], b[k]),
        reachable::visits(a) == reachable::visits(b),
        scoring::min_time(a) == scoring::min_time(b),
        scoring::is_score(a, k, x),
        scoring::is_score(b, k, y),
    ensures
        x == y,
{
    let visits = reachable::visits(a);
    let list = a[k].testcase.reachabilities@;
    let (near_a, least_a, time_a, weighting_a) = choose|near: W, least: W, time: W, weighting: W|
        {
            &&& #[trigger] scoring::is_neighbour_score(list, visits, near)
            &&& call_ensures(W::of_integer, (scoring::min_time(a),), least)
            &&& call_ensures(W::of_integer, (scoring::time_of(a[k]),), time)
            &&& #[trigger] call_ensures(W::over, (least, time), weighting)
            &&& #[trigger] call_ensures(W::times, (near, weighting), x)
        };
    let (near_b, least_b, time_b, weighting_b) = choose|near: W, least: W, time: W, weighting: W|
        {
            &&& #[trigger] scoring::is_neighbour_score(list, visits, near)
            &&& call_ensures(W::of_integer, (scoring::min_time(a),), least)
            &&& call_ensures(W::of_integer, (scoring::time_of(a[k]),), time)
            &&& #[trigger] call_ensures(W::over, (least, time), weighting)
            &&& #[trigger] call_ensures(W::times, (near, weighting), y)
        };
    lemma_one_neighbour_score(list, visits, near_a, near_b);
    assert(weighting_a == weighting_b);
}

/// All new metadata are equal in all fields, where each operation gives one result.
pub proof fn new_metadata_are_equal<W: Number>(
    a: ProbabilityMetadata<W>,
    b: ProbabilityMetadata<W>,
)
    requires
        numbers::functional::<W>(),
        a.is_new(),
        b.is_new(),
    ensures
        a.map@ == b.map@,
        a.map.order() == b.map.order(),
        a.total_probability == b.total_probability,
        a.needs_recalc == b.needs_recalc,
        a.last_recalc_time == b.last_recalc_time,
        a.last_recalc_duration == b.last_recalc_duration,
{
}

/// The testcase was not there at the last recalculation and was the first to cover the block.
pub open spec fn covers_first(entry: Entry, known: Seq<CorpusId>, block: usize) -> bool {
    !known.contains(entry.id) && reachable::novelties_of(entry).contains(block)
}

/// The testcase was not there at the last recalculation and comes near to the block.
pub open spec fn comes_near(entry: Entry, known: Seq<CorpusId>, block: usize) -> bool {
    !known.contains(entry.id) && reachable::indexes_near(entry).contains(block)
}

/// No testcase from position `from` on was the first to cover the block.
pub open spec fn stays_uncovered(
    entries: Seq<Entry>,
    known: Seq<CorpusId>,
    block: usize,
    from: int,
) -> bool {
    forall|j: int|
        from <= j < entries.len() ==> !#[trigger] covers_first(entries[j], known, block)
}

/// A block is reachable if and only if it was reachable before, or a new testcase comes near to
/// it, and no new testcase after that was the first to cover it.
pub proof fn a_block_is_reachable_until_it_is_covered(
    blocks: Set<usize>,
    entries: Seq<Entry>,
    known: Seq<CorpusId>,
    block: usize,
)
    ensures
        reachable::reachable_after(blocks, entries, known).contains(block) <==> {
            ||| blocks.contains(block) && stays_uncovered(entries, known, block, 0)
            ||| exists|k: int|
                0 <= k < entries.len() && #[trigger] comes_near(entries[k], known, block)
                    && stays_uncovered(entries, known, block, k + 1)
        },
    decreases entries.len(),
{
    if entries.len() > 0 {
        let last = entries.len() - 1;
        let shorter = entries.drop_last();
        a_block_is_reachable_until_it_is_covered(blocks, shorter, known, block);
        assert forall|j: int| 0 <= j < last implies shorter[j] == entries[j] by {}
        assert forall|from: int| 0 <= from <= last implies stays_uncovered(
            entries,
            known,
            block,
            from,
        ) == (stays_uncovered(shorter, known, block, from) && !covers_first(
            entries[last],
            known,
            block,
        )) by {
            if stays_uncovered(entries, known, block, from) {
                assert(!covers_first(entries[last], known, block));
                assert forall|j: int| from <= j < shorter.len() implies !#[trigger] covers_first(
                    shorter[j],
                    known,
                    block,
                ) by {
                    assert(!covers_first(entries[j], known, block));
                }
            }
            if stays_uncovered(shorter, known, block, from) && !covers_first(
                entries[last],
                known,
                block,
            ) {
                assert forall|j: int| from <= j < entries.len() implies !#[trigger] covers_first(
                    entries[j],
                    known,
                    block,
                ) by {
                    if j < last {
                        assert(!covers_first(shorter[j], known, block));
                    }
                }
            }
        }
        let now = reachable::reachable_after(blocks, entries, known).contains(block);
        let before = reachable::reachable_after(blocks, shorter, known).contains(block);
        assert(now == ((before && !covers_first(entries[last], known, block)) || comes_near(
            entries[last],
            known,
            block,
        )));
        if comes_near(entries[last], known, block) {
            assert(stays_uncovered(entries, known, block, last + 1));
        }
        if exists|k: int|
            0 <= k < shorter.len() && #[trigger] comes_near(shorter[k], known, block)
                && stays_uncovered(shorter, known, block, k + 1) {
            let k = choose|k: int|
                0 <= k < shorter.len() && #[trigger] comes_near(shorter[k], known, block)
                    && stays_uncovered(shorter, known, block, k + 1);
            assert(comes_near(entries[k], known, block));
        }
        if exists|k: int|
            0 <= k < entries.len() && #[trigger] comes_near(entries[k], known, block)
                && stays_uncovered(entries, known, block, k + 1) {
            let k = choose|k: int|
                0 <= k < entries.len() && #[trigger] comes_near(entries[k], known, block)
                    && stays_uncovered(entries, known, block, k + 1);
            if k < last {
                assert(comes_near(shorter[k], known, block));
            }
        }
    }
}

/// How many testcases have the reachability.
pub open spec fn entries_with(entries: Seq<Entry>, r: Reachability) -> nat
    decreases entries.len(),
{
    if entries.len() == 0 {
        0
    } else {
        entries_with(entries.drop_last(), r)
            + if entries.last().testcase.reachabilities@.contains(r) {
            1nat
        } else {
            0
        }
    }
}

/// The frequency of a reachability is the number of corpus entries it appears in, where no entry
/// lists it twice.
pub proof fn frequency_is_the_number_of_entries(entries: Seq<Entry>, r: Reachability)
    requires
        forall|i: int|
            0 <= i < entries.len() ==> (
            #[trigger] entries[i]).testcase.reachabilities@.no_duplicates(),
    ensures
        reachable::frequency(reachable::visits(entries), r) == entries_with(entries, r),
    decreases entries.len(),
{
    if entries.len() > 0 {
        let shorter = entries.drop_last();
        assert forall|i: int| 0 <= i < shorter.len() implies (
        #[trigger] shorter[i]).testcase.reachabilities@.no_duplicates() by {
            assert(shorter[i] == entries[i]);
        }
        frequency_is_the_number_of_entries(shorter, r);
        let own = reachable::entry_visits(entries.last());
        let list = entries.last().testcase.reachabilities@;
        assert(entries[entries.len() - 1].testcase.reachabilities@.no_duplicates());
        lemma_frequency_append(reachable::visits(shorter), own, r);
        lemma_frequency_distinct(own, list, r);
    }
}

proof fn lemma_frequency_append(
    first: Seq<reachable::Visit>,
    second: Seq<reachable::Visit>,
    r: Reachability,
)
    ensures
        reachable::frequency(first + second, r) == reachable::frequency(first, r)
            + reachable::frequency(second, r),
    decreases second.len(),
{
    if second.len() == 0 {
        assert(first + second =~= first);
    } else {
        assert((first + second).drop_last() =~= first + second.drop_last());
        lemma_frequency_append(first, second.drop_last(), r);
    }
}

proof fn lemma_frequency_distinct(
    visits: Seq<reachable::Visit>,
    list: Seq<Reachability>,
    r: Reachability,
)
    requires
        list.no_duplicates(),
        visits.len() == list.len(),
        forall|j: int| 0 <= j < list.len() ==> (#[trigger] visits[j]).reachability == list[j],
    ensures
        reachable::frequency(visits, r) == if list.contains(r) {
            1nat
        } else {
            0
        },
    decreases list.len(),
{
    if list.len() > 0 {
        let shorter = list.drop_last();
        lemma_frequency_distinct(visits.drop_last(), shorter, r);
        let last = list.len() - 1;
        if list.contains(r) {
            let j = choose|j: int| 0 <= j < list.len() && list[j] == r;
            if j < last {
                assert(shorter[j] == r);
            }
        }
        if shorter.contains(r) {
            let j = choose|j: int| 0 <= j < shorter.len() && shorter[j] == r;
            assert(list[j] == r);
        }
    }
}

/// The testcase at position `k` is favored for what it comes near to.
pub open spec fn reaches(selection: favored::Selection, entries: Seq<Entry>, k: int) -> bool {
    0 <= k < entries.len() && selection.by_reach.contains(entries[k].id.0)
}

/// The testcase at position `k` is favored.
pub open spec fn is_favored(selection: favored::Selection, entries: Seq<Entry>, k: int) -> bool {
    0 <= k < entries.len() && (selection.by_reach.contains(entries[k].id.0)
        || selection.by_coverage.contains(entries[k].id.0))
}

/// Some favored testcase gets as close as possible to every index that any testcase comes near
/// to.
pub proof fn favored_testcases_come_nearest_to_everything(
    entries: Seq<Entry>,
    order: Seq<usize>,
    index: usize,
)
    requires
        ordering::is_permutation(order, entries.len()),
        reachable::is_visited(reachable::visits(entries), index),
    ensures
        exists|k: int| #[trigger]
            reaches(favored::selection(entries, reachable::visits(entries), order), entries, k)
                && favored::nearest_to(entries[k], reachable::visits(entries)).contains(index),
{
    let visits = reachable::visits(entries);
    let v = lemma_some_visit_is_least(visits, index);
    reachable::lemma_visit_source(entries, v);
    let (i, j) = choose|i: int, j: int|
        0 <= i < entries.len() && 0 <= j < entries[i].testcase.reachabilities@.len() && (
        #[trigger] entries[i].testcase.reachabilities@[j]) == visits[v].reachability;
    assert(favored::nearest_to(entries[i], visits).contains(index));
    let n = lemma_permutation_reaches(order, entries.len(), i);
    lemma_filled(entries, order, index);
    assert(favored::nearest_to(entries[order[n] as int], visits).contains(index));
    lemma_filled_by_favored(entries, order, index);
}

/// Some visit to an index has the least depth.
proof fn lemma_some_visit_is_least(visits: Seq<reachable::Visit>, index: usize) -> (v: int)
    requires
        reachable::is_visited(visits, index),
    ensures
        0 <= v < visits.len(),
        visits[v].reachability.index == index,
        reachable::is_least_depth(visits, index, visits[v].reachability.depth),
    decreases visits.len(),
{
    let last = visits.len() - 1;
    let shorter = visits.drop_last();
    if reachable::is_visited(shorter, index) {
        let v = lemma_some_visit_is_least(shorter, index);
        assert(shorter[v] == visits[v]);
        assert forall|j: int|
            0 <= j < last && (
            #[trigger] visits[j]).reachability.index == index implies visits[v].reachability.depth
            <= visits[j].reachability.depth by {
            assert(shorter[j] == visits[j]);
        }
        if visits[last].reachability.index == index && visits[last].reachability.depth
            < visits[v].reachability.depth {
            last
        } else {
            v
        }
    } else {
        let v = choose|v: int|
            0 <= v < visits.len() && (#[trigger] visits[v]).reachability.index == index;
        if v < last {
            assert(shorter[v].reachability.index == index);
        }
        assert forall|j: int|
            0 <= j < visits.len() && (
            #[trigger] visits[j]).reachability.index == index implies j == last by {
            if j < last {
                assert(shorter[j].reachability.index == index);
            }
        }
        last
    }
}

/// Every position occurs in a permutation.
pub(crate) proof fn lemma_permutation_reaches(order: Seq<usize>, len: nat, position: int) -> (n: int)
    requires
        ordering::is_permutation(order, len),
        0 <= position < len,
    ensures
        0 <= n < order.len(),
        order[n] == position,
{
    if forall|n: int| 0 <= n < order.len() ==> order[n] != position {
        lemma_too_many(order, len as int, position);
    }
    choose|n: int| 0 <= n < order.len() && order[n] == position
}

/// Distinct numbers below `high`, none of which is `missing`, are fewer than `high`.
proof fn lemma_too_many(order: Seq<usize>, high: int, missing: int)
    requires
        0 <= missing < high,
        forall|i: int| 0 <= i < order.len() ==> (#[trigger] order[i]) < high && order[i]
            != missing,
        forall|i: int, j: int|
            0 <= i < j < order.len() ==> (#[trigger] order[i]) != (#[trigger] order[j]),
    ensures
        order.len() < high,
{
    let range = vstd::set_lib::set_int_range(0, high);
    vstd::set_lib::lemma_int_range(0, high);
    let numbers = Seq::new(order.len(), |i: int| order[i] as int);
    assert(numbers.no_duplicates());
    numbers.unique_seq_to_set();
    let used = numbers.to_set();
    assert forall|x: int| used.contains(x) implies range.remove(missing).contains(x) by {
        let i = choose|i: int| 0 <= i < numbers.len() && numbers[i] == x;
        assert(order[i] as int == x);
    }
    vstd::set_lib::lemma_len_subset(used, range.remove(missing));
}

/// What is filled in is what some testcase gone through comes nearest to.
proof fn lemma_filled(entries: Seq<Entry>, order: Seq<usize>, index: usize)
    ensures
        favored::selection(entries, reachable::visits(entries), order).filled.contains(index)
            <==> exists|n: int|
            0 <= n < order.len() && favored::nearest_to(
                entries[(#[trigger] order[n]) as int],
                reachable::visits(entries),
            ).contains(index),
    decreases order.len(),
{
    if order.len() > 0 {
        let shorter = order.drop_last();
        let visits = reachable::visits(entries);
        lemma_filled(entries, shorter, index);
        let last = order.len() - 1;
        if exists|n: int|
            0 <= n < order.len() && favored::nearest_to(
                entries[(#[trigger] order[n]) as int],
                visits,
            ).contains(index) {
            let n = choose|n: int|
                0 <= n < order.len() && favored::nearest_to(
                    entries[(#[trigger] order[n]) as int],
                    visits,
                ).contains(index);
            if n < last {
                assert(shorter[n] == order[n]);
            }
        }
        if exists|n: int|
            0 <= n < shorter.len() && favored::nearest_to(
                entries[(#[trigger] shorter[n]) as int],
                visits,
            ).contains(index) {
            let n = choose|n: int|
                0 <= n < shorter.len() && favored::nearest_to(
                    entries[(#[trigger] shorter[n]) as int],
                    visits,
                ).contains(index);
            assert(order[n] == shorter[n]);
        }
        assert(order[last] == order.last());
    }
}

/// What is filled in is what some favored testcase comes nearest to.
proof fn lemma_filled_by_favored(entries: Seq<Entry>, order: Seq<usize>, index: usize)
    requires
        forall|n: int| 0 <= n < order.len() ==> (#[trigger] order[n]) < entries.len(),
        favored::selection(entries, reachable::visits(entries), order).filled.contains(index),
    ensures
        exists|k: int| #[trigger]
            reaches(favored::selection(entries, reachable::visits(entries), order), entries, k)
                && favored::nearest_to(entries[k], reachable::visits(entries)).contains(index),
    decreases order.len(),
{
    let visits = reachable::visits(entries);
    let now = favored::selection(entries, visits, order);
    let shorter = order.drop_last();
    let before = favored::selection(entries, visits, shorter);
    if before.filled.contains(index) {
        assert forall|n: int| 0 <= n < shorter.len() implies (#[trigger] shorter[n])
            < entries.len() by {
            assert(shorter[n] == order[n]);
        }
        lemma_filled_by_favored(entries, shorter, index);
        let k = choose|k: int| #[trigger]
            reaches(before, entries, k) && favored::nearest_to(entries[k], visits).contains(
                index,
            );
        assert(reaches(now, entries, k));
    } else {
        assert(order[order.len() - 1] < entries.len());
        let k = order.last() as int;
        assert(favored::nearest_to(entries[k], visits).contains(index));
        assert(reaches(now, entries, k));
    }
}

/// Some favored testcase covers every index that any testcase covers.
pub proof fn favored_testcases_cover_everything(
    entries: Seq<Entry>,
    order: Seq<usize>,
    k: int,
    edge: usize,
)
    requires
        ordering::is_permutation(order, entries.len()),
        0 <= k < entries.len(),
        favored::covered_by(entries[k]).contains(edge),
    ensures
        exists|m: int| #[trigger]
            is_favored(favored::selection(entries, reachable::visits(entries), order), entries, m)
                && favored::covered_by(entries[m]).contains(edge),
{
    let n = lemma_permutation_reaches(order, entries.len(), k);
    lemma_edges(entries, order, edge);
    assert(favored::covered_by(entries[order[n] as int]).contains(edge));
    lemma_edges_by_favored(entries, order, edge);
}

/// What the testcases gone through cover is what some of them covers.
pub(crate) proof fn lemma_edges(entries: Seq<Entry>, order: Seq<usize>, edge: usize)
    ensures
        favored::selection(entries, reachable::visits(entries), order).edges.contains(edge)
            <==> exists|n: int|
            0 <= n < order.len() && favored::covered_by(
                entries[(#[trigger] order[n]) as int],
            ).contains(edge),
    decreases order.len(),
{
    if order.len() > 0 {
        let shorter = order.drop_last();
        let last = order.len() - 1;
        lemma_edges(entries, shorter, edge);
        if favored::selection(entries, reachable::visits(entries), shorter).edges.contains(edge) {
            let n = choose|n: int|
                0 <= n < shorter.len() && favored::covered_by(
                    entries[(#[trigger] shorter[n]) as int],
                ).contains(edge);
            assert(order[n] == shorter[n]);
        }
        if exists|n: int|
            0 <= n < order.len() && favored::covered_by(
                entries[(#[trigger] order[n]) as int],
            ).contains(edge) {
            let n = choose|n: int|
                0 <= n < order.len() && favored::covered_by(
                    entries[(#[trigger] order[n]) as int],
                ).contains(edge);
            if n < last {
                assert(shorter[n] == order[n]);
            }
        }
        assert(order[last] == order.last());
    }
}

proof fn lemma_edges_by_favored(entries: Seq<Entry>, order: Seq<usize>, edge: usize)
    requires
        forall|n: int| 0 <= n < order.len() ==> (#[trigger] order[n]) < entries.len(),
        favored::selection(entries, reachable::visits(entries), order).edges.contains(edge),
    ensures
        exists|m: int| #[trigger]
            is_favored(favored::selection(entries, reachable::visits(entries), order), entries, m)
                && favored::covered_by(entries[m]).contains(edge),
    decreases order.len(),
{
    let visits = reachable::visits(entries);
    let now = favored::selection(entries, visits, order);
    let shorter = order.drop_last();
    let before = favored::selection(entries, visits, shorter);
    if before.edges.contains(edge) {
        assert forall|n: int| 0 <= n < shorter.len() implies (#[trigger] shorter[n])
            < entries.len() by {
            assert(shorter[n] == order[n]);
        }
        lemma_edges_by_favored(entries, shorter, edge);
        let m = choose|m: int| #[trigger]
            is_favored(before, entries, m) && favored::covered_by(entries[m]).contains(edge);
        assert(is_favored(now, entries, m));
    } else {
        assert(order[order.len() - 1] < entries.len());
        let m = order.last() as int;
        assert(favored::covered_by(entries[m]).contains(edge));
        assert(is_favored(now, entries, m));
    }
}

/// The testcase considered `n`-th comes nearest to some index that no testcase considered before
/// it comes nearest to.
pub open spec fn comes_nearest_first(entries: Seq<Entry>, order: Seq<usize>, n: int) -> bool {
    let visits = reachable::visits(entries);
    exists|index: usize|
        {
            &&& #[trigger] favored::nearest_to(entries[order[n] as int], visits).contains(index)
            &&& forall|m: int|
                0 <= m < n ==> !favored::nearest_to(
                    entries[(#[trigger] order[m]) as int],
                    visits,
                ).contains(index)
        }
}

/// The testcase considered `n`-th covers some index that no testcase considered before it covers.
pub open spec fn covers_something_first(entries: Seq<Entry>, order: Seq<usize>, n: int) -> bool {
    exists|edge: usize|
        {
            &&& #[trigger] favored::covered_by(entries[order[n] as int]).contains(edge)
            &&& forall|m: int|
                0 <= m < n ==> !favored::covered_by(
                    entries[(#[trigger] order[m]) as int],
                ).contains(edge)
        }
}

/// No testcase is favored without need, and none twice: a testcase is favored for what it comes
/// near to if and only if it comes nearest to something before any other does, and for what it
/// covers if and only if it does not, but covers something before any other does.
pub proof fn favored_testcases_are_needed(entries: Seq<Entry>, order: Seq<usize>, n: int)
    requires
        model::distinct_ids(entries),
        ordering::is_permutation(order, entries.len()),
        0 <= n < order.len(),
    ensures
        favored::selection(entries, reachable::visits(entries), order).by_reach.contains(
            entries[order[n] as int].id.0,
        ) <==> comes_nearest_first(entries, order, n),
        favored::selection(entries, reachable::visits(entries), order).by_coverage.contains(
            entries[order[n] as int].id.0,
        ) <==> !comes_nearest_first(entries, order, n) && covers_something_first(
            entries,
            order,
            n,
        ),
{
    let visits = reachable::visits(entries);
    lemma_chosen_when_considered(entries, order, n);
    let before = order.take(n);
    let near = favored::nearest_to(entries[order[n] as int], visits);
    let covered = favored::covered_by(entries[order[n] as int]);
    let choice = favored::selection(entries, visits, before);
    assert forall|index: usize| near.contains(index) && !choice.filled.contains(
        index,
    ) implies comes_nearest_first(entries, order, n) by {
        lemma_filled(entries, before, index);
        assert forall|m: int| 0 <= m < n implies !favored::nearest_to(
            entries[(#[trigger] order[m]) as int],
            visits,
        ).contains(index) by {
            assert(before[m] == order[m]);
        }
    }
    if comes_nearest_first(entries, order, n) {
        let index = choose|index: usize|
            {
                &&& #[trigger] near.contains(index)
                &&& forall|m: int|
                    0 <= m < n ==> !favored::nearest_to(
                        entries[(#[trigger] order[m]) as int],
                        visits,
                    ).contains(index)
            };
        lemma_filled(entries, before, index);
        assert(near.contains(index) && !choice.filled.contains(index));
    }
    assert forall|edge: usize| covered.contains(edge) && !choice.edges.contains(
        edge,
    ) implies covers_something_first(entries, order, n) by {
        lemma_edges(entries, before, edge);
        assert forall|m: int| 0 <= m < n implies !favored::covered_by(
            entries[(#[trigger] order[m]) as int],
        ).contains(edge) by {
            assert(before[m] == order[m]);
        }
    }
    if covers_something_first(entries, order, n) {
        let edge = choose|edge: usize|
            {
                &&& #[trigger] covered.contains(edge)
                &&& forall|m: int|
                    0 <= m < n ==> !favored::covered_by(
                        entries[(#[trigger] order[m]) as int],
                    ).contains(edge)
            };
        lemma_edges(entries, before, edge);
        assert(covered.contains(edge) && !choice.edges.contains(edge));
    }
}

/// A testcase is chosen, if at all, when it is considered.
proof fn lemma_chosen_when_considered(entries: Seq<Entry>, order: Seq<usize>, n: int)
    requires
        model::distinct_ids(entries),
        forall|i: int| 0 <= i < order.len() ==> (#[trigger] order[i]) < entries.len(),
        forall|i: int, j: int|
            0 <= i < j < order.len() ==> (#[trigger] order[i]) != (#[trigger] order[j]),
        0 <= n < order.len(),
    ensures
        ({
            let visits = reachable::visits(entries);
            let entry = entries[order[n] as int];
            let before = favored::selection(entries, visits, order.take(n));
            let after = favored::selection(entries, visits, order);
            let reaches = !favored::nearest_to(entry, visits).subset_of(before.filled);
            let covers = !favored::covered_by(entry).subset_of(before.edges);
            &&& after.by_reach.contains(entry.id.0) == reaches
            &&& after.by_coverage.contains(entry.id.0) == (!reaches && covers)
        }),
    decreases order.len(),
{
    let visits = reachable::visits(entries);
    let shorter = order.drop_last();
    let last = order.len() - 1;
    let id = entries[order[n] as int].id.0;
    if n == last {
        assert(order.take(n) =~= shorter);
        let before = favored::selection(entries, visits, shorter);
        if before.by_reach.contains(id) || before.by_coverage.contains(id) {
            let i = lemma_chosen_was_considered(entries, shorter, id);
            assert(shorter[i] == order[i]);
            lemma_same_id(entries, order[i] as int, order[n] as int);
        }
    } else {
        assert(id != entries[order[last] as int].id.0) by {
            if id == entries[order[last] as int].id.0 {
                lemma_same_id(entries, order[n] as int, order[last] as int);
            }
        }
        assert(shorter.take(n) =~= order.take(n));
        lemma_chosen_when_considered(entries, shorter, n);
    }
}

proof fn lemma_same_id(entries: Seq<Entry>, i: int, j: int)
    requires
        model::distinct_ids(entries),
        0 <= i < entries.len(),
        0 <= j < entries.len(),
        entries[i].id.0 == entries[j].id.0,
    ensures
        i == j,
{
    assert(entries[i].id == entries[j].id);
}

pub(crate) proof fn lemma_chosen_was_considered(entries: Seq<Entry>, order: Seq<usize>, id: usize) -> (i: int)
    requires
        ({
            let choice = favored::selection(entries, reachable::visits(entries), order);
            choice.by_reach.contains(id) || choice.by_coverage.contains(id)
        }),
    ensures
        0 <= i < order.len(),
        entries[order[i] as int].id.0 == id,
    decreases order.len(),
{
    let shorter = order.drop_last();
    let before = favored::selection(entries, reachable::visits(entries), shorter);
    if order.len() > 0 && (before.by_reach.contains(id) || before.by_coverage.contains(id)) {
        let i = lemma_chosen_was_considered(entries, shorter, id);
        assert(shorter[i] == order[i]);
        i
    } else {
        order.len() - 1
    }
}

/// A threshold picks no more than one position of a walk, where each operation gives one result.
pub proof fn a_threshold_picks_one_position<W: Number>(
    walk: Seq<(usize, W)>,
    threshold: W,
    m: int,
    n: int,
)
    requires
        numbers::functional::<W>(),
        sampling::is_choice(walk, threshold, m),
        sampling::is_choice(walk, threshold, n),
    ensures
        m == n,
{
    lemma_not_chosen_before(walk, threshold, m, n);
    lemma_not_chosen_before(walk, threshold, n, m);
}

proof fn lemma_not_chosen_before<W: Number>(
    walk: Seq<(usize, W)>,
    threshold: W,
    m: int,
    n: int,
)
    requires
        numbers::functional::<W>(),
        sampling::is_choice(walk, threshold, m),
        sampling::is_choice(walk, threshold, n),
    ensures
        n <= m,
{
    if m < n {
        let (before, k) = choose|before: W, k: W|
            {
                &&& sampling::passes(walk, threshold, m as nat, before)
                &&& #[trigger] call_ensures(W::plus, (before, walk[m].1), k)
                &&& call_ensures(W::is_at_least, (k, threshold), true) || (m == walk.len() - 1
                    && call_ensures(W::is_at_least, (k, threshold), false))
            };
        let (late, _) = choose|before: W, k: W|
            {
                &&& sampling::passes(walk, threshold, n as nat, before)
                &&& #[trigger] call_ensures(W::plus, (before, walk[n].1), k)
                &&& call_ensures(W::is_at_least, (k, threshold), true) || (n == walk.len() - 1
                    && call_ensures(W::is_at_least, (k, threshold), false))
            };
        let next = (m + 1) as nat;
        let passed = lemma_passed_before(walk, threshold, next, n as nat, late);
        let also = choose|also: W|
            {
                &&& sampling::passes(walk, threshold, (next - 1) as nat, also)
                &&& #[trigger] call_ensures(W::plus, (also, walk[next - 1].1), passed)
                &&& call_ensures(W::is_at_least, (passed, threshold), false)
            };
        lemma_one_sum(walk, threshold, m as nat, before, also);
    }
}

/// What passes some probabilities passed fewer of them.
proof fn lemma_passed_before<W: Number>(
    walk: Seq<(usize, W)>,
    threshold: W,
    m: nat,
    n: nat,
    k: W,
) -> (passed: W)
    requires
        m <= n,
        sampling::passes(walk, threshold, n, k),
    ensures
        sampling::passes(walk, threshold, m, passed),
    decreases n,
{
    if m == n {
        k
    } else {
        let before = choose|before: W|
            {
                &&& sampling::passes(walk, threshold, (n - 1) as nat, before)
                &&& #[trigger] call_ensures(W::plus, (before, walk[n - 1].1), k)
                &&& call_ensures(W::is_at_least, (k, threshold), false)
            };
        lemma_passed_before(walk, threshold, m, (n - 1) as nat, before)
    }
}

proof fn lemma_one_sum<W: Number>(walk: Seq<(usize, W)>, threshold: W, n: nat, a: W, b: W)
    requires
        numbers::functional::<W>(),
        sampling::passes(walk, threshold, n, a),
        sampling::passes(walk, threshold, n, b),
    ensures
        a == b,
    decreases n,
{
    if n > 0 {
        let x = choose|before: W|
            {
                &&& sampling::passes(walk, threshold, (n - 1) as nat, before)
                &&& #[trigger] call_ensures(W::plus, (before, walk[n - 1].1), a)
                &&& call_ensures(W::is_at_least, (a, threshold), false)
            };
        let y = choose|before: W|
            {
                &&& sampling::passes(walk, threshold, (n - 1) as nat, before)
                &&& #[trigger] call_ensures(W::plus, (before, walk[n - 1].1), b)
                &&& call_ensures(W::is_at_least, (b, threshold), false)
            };
        lemma_one_sum(walk, threshold, (n - 1) as nat, x, y);
    }
}

/// What is left of a total is one number.
proof fn lemma_one_left<W: Number>(
    walk: Seq<(usize, W)>,
    entries: Seq<Entry>,
    total: W,
    a: W,
    b: W,
)
    requires
        numbers::functional::<W>(),
        sampling::leaves(walk, entries, total, a),
        sampling::leaves(walk, entries, total, b),
    ensures
        a == b,
    decreases walk.len(),
{
    if walk.len() > 0 {
        let shorter = walk.drop_last();
        if scoring::names(entries, walk.last().0) {
            lemma_one_left(shorter, entries, total, a, b);
        } else {
            let x = choose|before: W|
                sampling::leaves(shorter, entries, total, before) && #[trigger] call_ensures(
                    W::minus,
                    (before, walk.last().1),
                    a,
                );
            let y = choose|before: W|
                sampling::leaves(shorter, entries, total, before) && #[trigger] call_ensures(
                    W::minus,
                    (before, walk.last().1),
                    b,
                );
            lemma_one_left(shorter, entries, total, x, y);
        }
    }
}

proof fn lemma_one_threshold<W: Number>(total: W, draw: u64, a: W, b: W)
    requires
        numbers::functional::<W>(),
        sampling::is_threshold(total, draw, a),
        sampling::is_threshold(total, draw, b),
    ensures
        a == b,
{
}

/// What is done with a scheduler.
pub enum Event {
    /// A testcase is added.
    Added(CorpusId),
    /// The score of a testcase is stored.
    Stored(CorpusId),
    /// A testcase is scheduled, at the given time.
    Scheduled { draw: u64, now: u128, id: CorpusId },
}

/// The event leads from one state to the other. The clock does not go back during a
/// recalculation.
pub open spec fn leads<
    F: TestcaseScore<W>,
    W: Number,
    C: FnOnce(RecalcReport) -> (u128, u128),
>(before: State<W>, event: Event, after: State<W>) -> bool {
    match event {
        Event::Added(id) => exists|result: Result<(), Error>| #[trigger]
            scheduler::added(before, after, id, result),
        Event::Stored(id) => before.metadata is Some && exists|result: Result<(), Error>|
            #[trigger] scheduler::stored::<F, W>(before, after, id, result),
        Event::Scheduled { draw, now, id } => {
            &&& exists|finished: C| #[trigger]
                scheduler::scheduled(before, after, draw, now, finished, id)
            &&& scheduler::will_recalc(before, now) ==> now <= after.metadata->0.last_recalc_time
        },
    }
}

/// The event makes the scheduler recalculate.
pub open spec fn recalculates<W: Number>(before: State<W>, event: Event) -> bool {
    event matches Event::Scheduled { now, .. } && scheduler::will_recalc(before, now)
}

/// The time that recalculations took, from event `from` up to event `to`.
pub open spec fn time_spent<W: Number>(
    states: Seq<State<W>>,
    events: Seq<Event>,
    from: int,
    to: int,
) -> nat
    decreases to - from,
{
    if to <= from {
        0
    } else {
        time_spent(states, events, from, to - 1) + if recalculates(
            states[to - 1],
            events[to - 1],
        ) {
            states[to].metadata->0.last_recalc_duration as nat
        } else {
            0
        }
    }
}

/// No more than 10% of the time is spent recalculating: from the start of any recalculation to the
/// start of any later one, whatever is added, stored and scheduled in between.
pub proof fn recalculating_takes_at_most_a_tenth_of_the_time<
    F: TestcaseScore<W>,
    W: Number,
    C: FnOnce(RecalcReport) -> (u128, u128),
>(states: Seq<State<W>>, events: Seq<Event>, first: int, last: int)
    requires
        states.len() == events.len() + 1,
        forall|i: int|
            0 <= i < events.len() ==> leads::<F, W, C>(
                states[i],
                #[trigger] events[i],
                states[i + 1],
            ),
        0 <= first < last < events.len(),
        recalculates(states[first], events[first]),
        recalculates(states[last], events[last]),
    ensures
        10 * time_spent(states, events, first, last) <= events[last]->now - events[first]->now,
{
    lemma_time_spent::<F, W, C>(states, events, first, last);
}

/// Up to any event, no more than 10% of the time up to the last recalculation was spent on those
/// before it.
proof fn lemma_time_spent<
    F: TestcaseScore<W>,
    W: Number,
    C: FnOnce(RecalcReport) -> (u128, u128),
>(states: Seq<State<W>>, events: Seq<Event>, first: int, n: int)
    requires
        states.len() == events.len() + 1,
        forall|i: int|
            0 <= i < events.len() ==> leads::<F, W, C>(
                states[i],
                #[trigger] events[i],
                states[i + 1],
            ),
        0 <= first < n <= events.len(),
        recalculates(states[first], events[first]),
    ensures
        states[n].metadata is Some,
        10 * (time_spent(states, events, first, n) - states[n].metadata->0.last_recalc_duration)
            <= states[n].metadata->0.last_recalc_time - events[first]->now,
    decreases n - first,
{
    let before = states[n - 1];
    let event = events[n - 1];
    assert(leads::<F, W, C>(before, event, states[(n - 1) + 1]));
    if n - 1 == first {
        assert(time_spent(states, events, first, first) == 0);
    } else {
        lemma_time_spent::<F, W, C>(states, events, first, n - 1);
    }
}

/// After a recalculation every testcase of the corpus has a probability, and nothing else has one.
pub proof fn a_recalculation_leaves_no_testcase_out<W: Number>(
    before: State<W>,
    after: State<W>,
    id: CorpusId,
)
    requires
        scheduler::recalculated(before, after),
    ensures
        after.metadata->0.map@.dom().contains(id.0) <==> before.corpus.holds(id),
{
    let entries = before.corpus.entries@;
    if before.corpus.holds(id) {
        lemma_held_is_named(before, id);
    }
    if scoring::names(entries, id.0) {
        let k = choose|k: int| 0 <= k < entries.len() && (#[trigger] entries[k]).id.0 == id.0;
        assert(model::ids_of(entries)[k] == id);
    }
}

/// Once a testcase was added, one can be scheduled, unless a recalculation comes first that is not
/// possible.
pub proof fn an_added_testcase_can_be_scheduled<W: Number>(
    before: State<W>,
    after: State<W>,
    id: CorpusId,
    now: u128,
)
    requires
        after.wf(),
        scheduler::added(before, after, id, Ok(())),
        scheduler::is_timely(after.metadata->0, now),
        scheduler::will_recalc(after, now) ==> after.recalculable(),
    ensures
        after.metadata->0.needs_recalc,
        after.metadata->0.map@.dom().contains(id.0),
        scheduler::can_schedule(after, now),
        scheduler::has_candidate(after),
{
    let entries = before.corpus.entries@;
    let k = choose|k: int| 0 <= k < entries.len() && model::ids_of(entries)[k] == id;
    assert(after.corpus.entries@[k].id == id);
    assert(scoring::names(after.corpus.entries@, id.0));
    assert(after.metadata->0.map@.dom().contains(id.0));
    after.metadata->0.map.lemma_order();
    if after.metadata->0.map@.dom().len() == 0 {
        assert(after.metadata->0.map@.dom() =~= Set::empty());
    }
}

/// The same draw picks the same testcase from the same probabilities and the same corpus, where
/// each operation gives one result.
pub proof fn the_same_draw_picks_the_same_testcase<W: Number>(
    metadata: ProbabilityMetadata<W>,
    entries: Seq<Entry>,
    draw: u64,
    a: CorpusId,
    b: CorpusId,
)
    requires
        numbers::functional::<W>(),
        scheduler::sampled(metadata, entries, draw, a),
        scheduler::sampled(metadata, entries, draw, b),
    ensures
        a == b,
{
    let order = metadata.map.order();
    let held = sampling::held(order, entries);
    let all = metadata.total_probability;
    let (total_a, m) = choose|total: W, n: int|
        {
            &&& #[trigger] sampling::leaves(order, entries, all, total)
            &&& #[trigger] sampling::picks(held, total, draw, n)
            &&& 0 <= n < held.len()
            &&& held[n].0 == a.0
        };
    let (total_b, n) = choose|total: W, n: int|
        {
            &&& #[trigger] sampling::leaves(order, entries, all, total)
            &&& #[trigger] sampling::picks(held, total, draw, n)
            &&& 0 <= n < held.len()
            &&& held[n].0 == b.0
        };
    lemma_one_left(order, entries, all, total_a, total_b);
    let x = choose|threshold: W| #[trigger]
        sampling::is_threshold(total_a, draw, threshold) && sampling::is_choice(
            held,
            threshold,
            m,
        );
    let y = choose|threshold: W| #[trigger]
        sampling::is_threshold(total_b, draw, threshold) && sampling::is_choice(
            held,
            threshold,
            n,
        );
    lemma_one_threshold(total_a, draw, x, y);
    a_threshold_picks_one_position(held, x, m, n);
}

/// Nothing but the testcases of the corpus has a probability.
pub open spec fn only_testcases_have_probabilities<W: Number>(state: State<W>) -> bool {
    state.metadata matches Some(metadata) ==> forall|key: usize| #[trigger]
        metadata.map@.dom().contains(key) ==> scoring::names(state.corpus.entries@, key)
}

/// Storing a score gives nothing but a testcase of the corpus a probability.
pub proof fn storing_leaves_probabilities_to_testcases<F: TestcaseScore<W>, W: Number>(
    before: State<W>,
    after: State<W>,
    id: CorpusId,
    result: Result<(), Error>,
)
    requires
        before.metadata is Some,
        scheduler::stored::<F, W>(before, after, id, result),
        only_testcases_have_probabilities(before),
    ensures
        only_testcases_have_probabilities(after),
{
    if before.corpus.holds(id) && result is Ok {
        lemma_held_is_named(before, id);
    }
}

/// Adding a testcase gives nothing but a testcase of the corpus a probability.
pub proof fn adding_leaves_probabilities_to_testcases<W: Number>(
    before: State<W>,
    after: State<W>,
    id: CorpusId,
    result: Result<(), Error>,
)
    requires
        scheduler::added(before, after, id, result),
        only_testcases_have_probabilities(before),
    ensures
        only_testcases_have_probabilities(after),
{
    if before.corpus.holds(id) {
        lemma_held_is_named(before, id);
        let start = choose|start: ProbabilityMetadata<W>|
            {
                &&& #[trigger] scheduler::starts_from(before.metadata, start)
                &&& scheduler::joined(start, after.metadata->0, id)
            };
        assert forall|key: usize| #[trigger]
            after.metadata->0.map@.dom().contains(key) implies scoring::names(
            after.corpus.entries@,
            key,
        ) by {
            if key != id.0 {
                assert(start.map@.dom().contains(key));
            }
            assert(scoring::names(before.corpus.entries@, key));
            let k = choose|k: int|
                0 <= k < before.corpus.entries@.len() && (
                #[trigger] before.corpus.entries@[k]).id.0 == key;
            assert(after.corpus.entries@[k].id.0 == key);
        }
    }
}

/// A recalculation gives nothing but the testcases of the corpus a probability.
pub proof fn recalculating_leaves_probabilities_to_testcases<W: Number>(
    before: State<W>,
    after: State<W>,
)
    requires
        scheduler::recalculated(before, after),
    ensures
        only_testcases_have_probabilities(after),
{
}

/// The sampled item is one from the corpus, whatever else has a probability.
pub proof fn a_scheduled_testcase_is_one_of_the_corpus<
    W: Number,
    C: FnOnce(RecalcReport) -> (u128, u128),
>(before: State<W>, after: State<W>, draw: u64, now: u128, finished: C, id: CorpusId)
    requires
        scheduler::scheduled(before, after, draw, now, finished, id),
    ensures
        before.corpus.holds(id),
        after.corpus.holds(id),
{
}

/// A testcase that the corpus holds is one of its entries.
proof fn lemma_held_is_named<W: Number>(state: State<W>, id: CorpusId)
    requires
        state.corpus.holds(id),
    ensures
        scoring::names(state.corpus.entries@, id.0),
{
    let entries = state.corpus.entries@;
    let k = choose|k: int| 0 <= k < entries.len() && model::ids_of(entries)[k] == id;
    assert(entries[k].id.0 == id.0);
}

/// Schedulers hold nothing, so all are alike: what they know is in the state.
pub proof fn a_scheduler_has_no_state<F: TestcaseScore<W>, W: Number>(
    a: ProbabilitySamplingScheduler<F, W>,
    b: ProbabilitySamplingScheduler<F, W>,
)
    ensures
        a == b,
{
    a.lemma_holds_nothing(b);
}

} // verus!
