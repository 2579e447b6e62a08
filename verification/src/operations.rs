//! What each operation does, told of nothing but the values that it takes and gives.

use vstd::prelude::*;

use libafl_bolts::rands::StdRand;

use crate::collections;
use crate::collections::IndexSet;
use crate::favored::RecalcReport;
use crate::laws;
use crate::model;
use crate::model::{
    Corpus, CorpusId, Entry, Error, MapNeighboursFeedbackMetadata, ProbabilityMetadata,
    Reachability, State,
};
use crate::numbers::Number;
use crate::reachable;
use crate::reachable::{ReachableBlocksResult, Visit};
use crate::scheduler;
use crate::scheduler::{ControlFlowGraph, ProbabilitySamplingScheduler, TestcaseScore};
use crate::scoring;
use crate::table;
use crate::table::Table;

verus! {

/// Tells whether a reachability is the given one.
pub open spec fn is_the(r: Reachability) -> spec_fn(Reachability) -> bool {
    |x: Reachability| x == r
}

/// How often the testcases of a corpus list a reachability.
pub open spec fn occurrences(entries: Seq<Entry>, r: Reachability) -> int {
    entries.fold_left(
        0int,
        |sum: int, e: Entry|
            sum + e.testcase.reachabilities@.filter(is_the(r)).len(),
    )
}

/// How many mutations were executed of the testcases that list an index at depth 1, each counted
/// as often as it lists the index there.
pub open spec fn executed_next_to(entries: Seq<Entry>, index: usize) -> int {
    entries.fold_left(
        0int,
        |sum: int, e: Entry|
            sum + (match e.testcase.num_mutations_executed {
                Some(mutations) => mutations as int,
                None => 0,
            }) * e.testcase.reachabilities@.filter(
                |x: Reachability| x.depth == 1 && x.index == index,
            ).len(),
    )
}

proof fn lemma_frequency_append(a: Seq<Visit>, b: Seq<Visit>, r: Reachability)
    ensures
        reachable::frequency(a + b, r) == reachable::frequency(a, r) + reachable::frequency(b, r),
    decreases b.len(),
{
    if b.len() == 0 {
        assert(a + b =~= a);
    } else {
        lemma_frequency_append(a, b.drop_last(), r);
        assert((a + b).drop_last() =~= a + b.drop_last());
    }
}

proof fn lemma_direct_append(a: Seq<Visit>, b: Seq<Visit>, index: usize)
    ensures
        reachable::direct_mutations(a + b, index) == reachable::direct_mutations(a, index)
            + reachable::direct_mutations(b, index),
    decreases b.len(),
{
    if b.len() == 0 {
        assert(a + b =~= a);
    } else {
        lemma_direct_append(a, b.drop_last(), index);
        assert((a + b).drop_last() =~= a + b.drop_last());
    }
}

proof fn lemma_frequency_listed(visits: Seq<Visit>, list: Seq<Reachability>, r: Reachability)
    requires
        visits.len() == list.len(),
        forall|j: int| 0 <= j < list.len() ==> (#[trigger] visits[j]).reachability == list[j],
    ensures
        reachable::frequency(visits, r) == list.filter(is_the(r)).len(),
    decreases list.len(),
{
    reveal(Seq::filter);
    if list.len() > 0 {
        assert forall|j: int| 0 <= j < list.drop_last().len() implies (
        #[trigger] visits.drop_last()[j]).reachability == list.drop_last()[j] by {
            assert(visits[j].reachability == list[j]);
        }
        lemma_frequency_listed(visits.drop_last(), list.drop_last(), r);
        assert(visits[list.len() - 1].reachability == list[list.len() - 1]);
    }
}

proof fn lemma_direct_listed(
    visits: Seq<Visit>,
    list: Seq<Reachability>,
    mutations: int,
    index: usize,
)
    requires
        visits.len() == list.len(),
        forall|j: int|
            0 <= j < list.len() ==> (#[trigger] visits[j]).reachability == list[j]
                && visits[j].mutations == mutations,
    ensures
        reachable::direct_mutations(visits, index) == mutations * list.filter(
            |x: Reachability| x.depth == 1 && x.index == index,
        ).len(),
    decreases list.len(),
{
    reveal(Seq::filter);
    let direct = |x: Reachability| x.depth == 1 && x.index == index;
    if list.len() > 0 {
        assert forall|j: int| 0 <= j < list.drop_last().len() implies (
        #[trigger] visits.drop_last()[j]).reachability == list.drop_last()[j]
            && visits.drop_last()[j].mutations == mutations by {
            assert(visits[j].reachability == list[j]);
        }
        lemma_direct_listed(visits.drop_last(), list.drop_last(), mutations, index);
        assert(visits[list.len() - 1].reachability == list[list.len() - 1]);
        let n = list.drop_last().filter(direct).len() as int;
        assert(mutations * (n + 1) == mutations * n + mutations) by (nonlinear_arith);
    } else {
        assert(mutations * 0 == 0);
    }
}

/// The tallies are counts over the corpus.
pub(crate) proof fn lemma_counts(entries: Seq<Entry>, r: Reachability, index: usize)
    ensures
        reachable::frequency(reachable::visits(entries), r) == occurrences(entries, r),
        reachable::direct_mutations(reachable::visits(entries), index) == executed_next_to(
            entries,
            index,
        ),
    decreases entries.len(),
{
    if entries.len() > 0 {
        let before = reachable::visits(entries.drop_last());
        let last = entries.last();
        let own = reachable::entry_visits(last);
        let list = last.testcase.reachabilities@;
        let mutations: int = match last.testcase.num_mutations_executed {
            Some(mutations) => mutations as int,
            None => 0,
        };
        lemma_counts(entries.drop_last(), r, index);
        lemma_frequency_append(before, own, r);
        lemma_direct_append(before, own, index);
        lemma_frequency_listed(own, list, r);
        lemma_direct_listed(own, list, mutations, index);
    }
}

/// The testcase at position `k` lists the reachability at position `j`.
pub open spec fn lists(entries: Seq<Entry>, k: int, j: int, r: Reachability) -> bool {
    &&& 0 <= k < entries.len()
    &&& 0 <= j < entries[k].testcase.reachabilities@.len()
    &&& entries[k].testcase.reachabilities@[j] == r
}

/// Some testcase lists the reachability.
pub open spec fn is_listed(entries: Seq<Entry>, r: Reachability) -> bool {
    exists|k: int, j: int| lists(entries, k, j, r)
}

pub(crate) proof fn lemma_listed(entries: Seq<Entry>, r: Reachability)
    ensures
        is_listed(entries, r) <==> exists|v: int|
            0 <= v < reachable::visits(entries).len() && (
            #[trigger] reachable::visits(entries)[v]).reachability == r,
{
    let visits = reachable::visits(entries);
    if is_listed(entries, r) {
        let (k, j) = choose|k: int, j: int| lists(entries, k, j, r);
        reachable::lemma_is_visited(entries, k, j);
    }
    if exists|v: int| 0 <= v < visits.len() && (#[trigger] visits[v]).reachability == r {
        let v = choose|v: int| 0 <= v < visits.len() && (#[trigger] visits[v]).reachability == r;
        reachable::lemma_visit_source(entries, v);
        let (i, j) = choose|i: int, j: int|
            0 <= i < entries.len() && 0 <= j < entries[i].testcase.reachabilities@.len() && (
            #[trigger] entries[i].testcase.reachabilities@[j]) == visits[v].reachability;
        assert(lists(entries, i, j, r));
    }
}

/// The result counts the corpus: how often each reachability is listed, how many mutations were
/// executed next to each index that is listed at depth 1, and the least depth at which each index
/// is listed. It holds nothing else.
pub open spec fn counts(entries: Seq<Entry>, result: ReachableBlocksResult) -> bool {
    let frequency = result.frequency_for_reachability@;
    let mutations = result.direct_neighbour_mutations_for_index@;
    let depth = result.least_depth_for_index@;
    &&& forall|i: usize, d: usize, a: usize| #[trigger]
        frequency.dom().contains((i, d, a)) <==> is_listed(
            entries,
            Reachability { index: i, depth: d, direct_neighbour_ancestor_index: a },
        )
    &&& forall|i: usize, d: usize, a: usize| #[trigger]
        frequency.dom().contains((i, d, a)) ==> frequency[(i, d, a)] == occurrences(
            entries,
            Reachability { index: i, depth: d, direct_neighbour_ancestor_index: a },
        )
    &&& forall|i: usize| #[trigger]
        mutations.dom().contains(i) <==> exists|r: Reachability| #[trigger]
            is_listed(entries, r) && r.index == i && r.depth == 1
    &&& forall|i: usize| #[trigger]
        mutations.dom().contains(i) ==> mutations[i] == executed_next_to(entries, i)
    &&& forall|i: usize| #[trigger]
        depth.dom().contains(i) <==> exists|r: Reachability| #[trigger]
            is_listed(entries, r) && r.index == i
    &&& forall|i: usize| #[trigger]
        depth.dom().contains(i) ==> exists|r: Reachability| #[trigger]
            is_listed(entries, r) && r.index == i && r.depth == depth[i]
    &&& forall|r: Reachability| #[trigger]
        is_listed(entries, r) ==> depth[r.index] <= r.depth
}

proof fn lemma_tallies(entries: Seq<Entry>, result: ReachableBlocksResult)
    requires
        result.tallies(reachable::visits(entries)),
    ensures
        counts(entries, result),
{
    let visits = reachable::visits(entries);
    let frequency = result.frequency_for_reachability@;
    let mutations = result.direct_neighbour_mutations_for_index@;
    let depth = result.least_depth_for_index@;
    assert forall|i: usize, d: usize, a: usize| #[trigger]
        frequency.dom().contains((i, d, a)) <==> is_listed(
            entries,
            Reachability { index: i, depth: d, direct_neighbour_ancestor_index: a },
        ) by {
        let r = Reachability { index: i, depth: d, direct_neighbour_ancestor_index: a };
        assert(reachable::key_of(r) == (i, d, a));
        assert(frequency.dom().contains(reachable::key_of(r)) == (reachable::frequency(visits, r)
            > 0));
        lemma_listed(entries, r);
        lemma_occurs(visits, r);
    }
    assert forall|i: usize, d: usize, a: usize| #[trigger]
        frequency.dom().contains((i, d, a)) implies frequency[(i, d, a)] == occurrences(
        entries,
        Reachability { index: i, depth: d, direct_neighbour_ancestor_index: a },
    ) by {
        let r = Reachability { index: i, depth: d, direct_neighbour_ancestor_index: a };
        assert(reachable::key_of(r) == (i, d, a));
        assert(frequency.dom().contains(reachable::key_of(r)));
        lemma_counts(entries, r, i);
    }
    assert forall|i: usize| #[trigger]
        mutations.dom().contains(i) <==> exists|r: Reachability| #[trigger]
            is_listed(entries, r) && r.index == i && r.depth == 1 by {
        lemma_direct(entries, i);
    }
    assert forall|i: usize| #[trigger] mutations.dom().contains(i) implies mutations[i]
        == executed_next_to(entries, i) by {
        let r = Reachability { index: i, depth: 1, direct_neighbour_ancestor_index: i };
        lemma_counts(entries, r, i);
    }
    assert forall|i: usize| #[trigger]
        depth.dom().contains(i) <==> exists|r: Reachability| #[trigger]
            is_listed(entries, r) && r.index == i by {
        assert(depth.dom().contains(i) == reachable::is_visited(visits, i));
        if reachable::is_visited(visits, i) {
            let v = choose|v: int|
                0 <= v < visits.len() && (#[trigger] visits[v]).reachability.index == i;
            lemma_listed(entries, visits[v].reachability);
        }
        if exists|r: Reachability| #[trigger] is_listed(entries, r) && r.index == i {
            let r = choose|r: Reachability| #[trigger] is_listed(entries, r) && r.index == i;
            lemma_listed(entries, r);
        }
    }
    assert forall|i: usize| #[trigger]
        depth.dom().contains(i) implies exists|r: Reachability| #[trigger]
        is_listed(entries, r) && r.index == i && r.depth == depth[i] by {
        assert(reachable::is_least_depth(visits, i, depth[i]));
        let v = choose|v: int|
            0 <= v < visits.len() && (#[trigger] visits[v]).reachability.index == i
                && visits[v].reachability.depth == depth[i];
        lemma_listed(entries, visits[v].reachability);
    }
    assert forall|r: Reachability| #[trigger] is_listed(entries, r) implies depth[r.index]
        <= r.depth by {
        lemma_listed(entries, r);
        let v = choose|v: int| 0 <= v < visits.len() && (#[trigger] visits[v]).reachability == r;
        assert(reachable::is_visited(visits, r.index));
        assert(depth.dom().contains(r.index));
        assert(reachable::is_least_depth(visits, r.index, depth[r.index]));
    }
}

proof fn lemma_occurs(visits: Seq<Visit>, r: Reachability)
    ensures
        reachable::frequency(visits, r) > 0 <==> exists|v: int|
            0 <= v < visits.len() && (#[trigger] visits[v]).reachability == r,
    decreases visits.len(),
{
    if exists|v: int| 0 <= v < visits.len() && (#[trigger] visits[v]).reachability == r {
        let v = choose|v: int| 0 <= v < visits.len() && (#[trigger] visits[v]).reachability == r;
        reachable::lemma_frequency_positive(visits, v);
    }
    if reachable::frequency(visits, r) > 0 {
        let last = visits.len() - 1;
        if visits[last].reachability != r {
            lemma_occurs(visits.drop_last(), r);
            let v = choose|v: int|
                0 <= v < visits.drop_last().len() && (
                #[trigger] visits.drop_last()[v]).reachability == r;
            assert(visits[v].reachability == r);
        }
    }
}

proof fn lemma_direct(entries: Seq<Entry>, index: usize)
    ensures
        reachable::has_direct(reachable::visits(entries), index) <==> exists|r: Reachability|
            #[trigger] is_listed(entries, r) && r.index == index && r.depth == 1,
{
    let visits = reachable::visits(entries);
    if reachable::has_direct(visits, index) {
        let v = choose|v: int|
            0 <= v < visits.len() && reachable::is_direct(#[trigger] visits[v], index);
        lemma_listed(entries, visits[v].reachability);
    }
    if exists|r: Reachability| #[trigger]
        is_listed(entries, r) && r.index == index && r.depth == 1 {
        let r = choose|r: Reachability| #[trigger]
            is_listed(entries, r) && r.index == index && r.depth == 1;
        lemma_listed(entries, r);
        let v = choose|v: int| 0 <= v < visits.len() && (#[trigger] visits[v]).reachability == r;
        assert(reachable::is_direct(visits[v], index));
    }
}

/// No count over the corpus is more than a machine integer holds.
pub open spec fn counts_fit(entries: Seq<Entry>) -> bool {
    &&& forall|r: Reachability| #[trigger] occurrences(entries, r) <= usize::MAX
    &&& forall|index: usize| #[trigger] executed_next_to(entries, index) <= usize::MAX
}

proof fn lemma_counts_fit(entries: Seq<Entry>)
    ensures
        counts_fit(entries) <==> reachable::tallies_fit(reachable::visits(entries)),
{
    let visits = reachable::visits(entries);
    if counts_fit(entries) {
        assert forall|r: Reachability| #[trigger] reachable::frequency(visits, r)
            <= usize::MAX by {
            lemma_counts(entries, r, 0);
            assert(occurrences(entries, r) <= usize::MAX);
        }
        assert forall|index: usize| #[trigger] reachable::direct_mutations(visits, index)
            <= usize::MAX by {
            let r = Reachability { index, depth: 1, direct_neighbour_ancestor_index: index };
            lemma_counts(entries, r, index);
            assert(executed_next_to(entries, index) <= usize::MAX);
        }
    }
    if reachable::tallies_fit(visits) {
        assert forall|r: Reachability| #[trigger] occurrences(entries, r) <= usize::MAX by {
            lemma_counts(entries, r, 0);
            assert(reachable::frequency(visits, r) <= usize::MAX);
        }
        assert forall|index: usize| #[trigger] executed_next_to(entries, index)
            <= usize::MAX by {
            let r = Reachability { index, depth: 1, direct_neighbour_ancestor_index: index };
            lemma_counts(entries, r, index);
            assert(reachable::direct_mutations(visits, index) <= usize::MAX);
        }
    }
}

/// Tallying counts the corpus, and gives a result if and only if all counts can be held.
pub proof fn a_tally_counts_the_corpus(
    entries: Vec<Entry>,
    result: Option<ReachableBlocksResult>,
)
    requires
        call_ensures(reachable::tally, (&entries,), result),
    ensures
        result is Some <==> counts_fit(entries@),
        result matches Some(tallies) ==> counts(entries@, tallies),
{
    lemma_counts_fit(entries@);
    if result is Some {
        lemma_tallies(entries@, result->0);
    }
}

/// The corpus holds the testcase.
pub open spec fn is_in(entries: Seq<Entry>, id: CorpusId) -> bool {
    exists|k: int| 0 <= k < entries.len() && (#[trigger] entries[k]).id == id
}

/// No two testcases have the same name.
pub open spec fn are_distinct(entries: Seq<Entry>) -> bool {
    forall|i: int, j: int|
        0 <= i < j < entries.len() ==> (#[trigger] entries[i]).id != (#[trigger] entries[j]).id
}

/// The testcase was not there at the last recalculation, and was the first to cover the block.
pub open spec fn newly_covers(entry: Entry, known: Seq<CorpusId>, block: usize) -> bool {
    &&& !known.contains(entry.id)
    &&& entry.testcase.novelties matches Some(novelties) && novelties@.contains(block)
}

/// The testcase was not there at the last recalculation, and lists the block at some depth.
pub open spec fn newly_lists(entry: Entry, known: Seq<CorpusId>, block: usize) -> bool {
    &&& !known.contains(entry.id)
    &&& exists|j: int|
        0 <= j < entry.testcase.reachabilities@.len() && (
        #[trigger] entry.testcase.reachabilities@[j]).index == block
}

/// What is known of the neighbours follows the corpus: a block is reachable if and only if it was
/// and no new testcase covers it, or a new testcase lists it, at whatever depth, and no new one
/// after that covers it.
pub open spec fn follows(
    before: MapNeighboursFeedbackMetadata,
    after: MapNeighboursFeedbackMetadata,
    entries: Seq<Entry>,
) -> bool {
    let known = before.corpus_ids_present_at_recalc@;
    &&& after.covered_blocks == before.covered_blocks
    &&& after.corpus_ids_present_at_recalc@.len() == entries.len()
    &&& forall|k: int|
        0 <= k < entries.len() ==> (#[trigger] after.corpus_ids_present_at_recalc@[k])
            == entries[k].id
    &&& forall|block: usize| #[trigger]
        collections::index_set_contents(after.reachable_blocks).contains(block) <==> {
            ||| collections::index_set_contents(before.reachable_blocks).contains(block) && forall|k: int|
                0 <= k < entries.len() ==> !newly_covers(#[trigger] entries[k], known, block)
            ||| exists|k: int|
                0 <= k < entries.len() && newly_lists(#[trigger] entries[k], known, block)
                    && forall|later: int|
                    k < later < entries.len() ==> !newly_covers(
                        #[trigger] entries[later],
                        known,
                        block,
                    )
        }
}

pub(crate) proof fn lemma_follows(
    before: MapNeighboursFeedbackMetadata,
    after: MapNeighboursFeedbackMetadata,
    entries: Seq<Entry>,
)
    requires
        reachable::neighbours_updated(before, after, entries),
    ensures
        follows(before, after, entries),
{
    let known = before.corpus_ids_present_at_recalc@;
    assert forall|block: usize| #[trigger]
        collections::index_set_contents(after.reachable_blocks).contains(block) <==> {
            ||| collections::index_set_contents(before.reachable_blocks).contains(block) && forall|k: int|
                0 <= k < entries.len() ==> !newly_covers(#[trigger] entries[k], known, block)
            ||| exists|k: int|
                0 <= k < entries.len() && newly_lists(#[trigger] entries[k], known, block)
                    && forall|later: int|
                    k < later < entries.len() ==> !newly_covers(
                        #[trigger] entries[later],
                        known,
                        block,
                    )
        } by {
        let blocks = before.reachable_blocks@;
        laws::a_block_is_reachable_until_it_is_covered(blocks, entries, known, block);
        assert forall|k: int| 0 <= k < entries.len() implies newly_covers(
            #[trigger] entries[k],
            known,
            block,
        ) == laws::covers_first(entries[k], known, block) && newly_lists(entries[k], known, block)
            == laws::comes_near(entries[k], known, block) by {}
        if blocks.contains(block) && laws::stays_uncovered(entries, known, block, 0) {
            assert forall|k: int| 0 <= k < entries.len() implies !newly_covers(
                #[trigger] entries[k],
                known,
                block,
            ) by {
                assert(!laws::covers_first(entries[k], known, block));
            }
        }
        if exists|k: int|
            0 <= k < entries.len() && #[trigger] laws::comes_near(entries[k], known, block)
                && laws::stays_uncovered(entries, known, block, k + 1) {
            let k = choose|k: int|
                0 <= k < entries.len() && #[trigger] laws::comes_near(entries[k], known, block)
                    && laws::stays_uncovered(entries, known, block, k + 1);
            assert(newly_lists(entries[k], known, block));
            assert forall|later: int| k < later < entries.len() implies !newly_covers(
                #[trigger] entries[later],
                known,
                block,
            ) by {
                assert(!laws::covers_first(entries[later], known, block));
            }
        }
        if exists|k: int|
            0 <= k < entries.len() && newly_lists(#[trigger] entries[k], known, block)
                && forall|later: int|
                k < later < entries.len() ==> !newly_covers(
                    #[trigger] entries[later],
                    known,
                    block,
                ) {
            let k = choose|k: int|
                0 <= k < entries.len() && newly_lists(#[trigger] entries[k], known, block)
                    && forall|later: int|
                    k < later < entries.len() ==> !newly_covers(
                        #[trigger] entries[later],
                        known,
                        block,
                    );
            assert(laws::comes_near(entries[k], known, block));
            assert(laws::stays_uncovered(entries, known, block, k + 1));
        }
    }
    assert forall|k: int| 0 <= k < entries.len() implies (
    #[trigger] after.corpus_ids_present_at_recalc@[k]) == entries[k].id by {
        assert(model::ids_of(entries)[k] == entries[k].id);
    }
}

/// Recalculating the reachable blocks counts the corpus, brings what is known of the neighbours up
/// to date with it, and changes nothing else.
pub proof fn reachable_blocks_follow_the_corpus<F: TestcaseScore<W>, W: Number>(
    scheduler: ProbabilitySamplingScheduler<F, W>,
    state: &mut State<W>,
    result: ReachableBlocksResult,
)
    requires
        old(state).neighbours is Some,
        call_ensures(
            ProbabilitySamplingScheduler::<F, W>::recalculate_reachable_blocks,
            (&scheduler, state),
            result,
        ),
    ensures
        counts(old(state).corpus.entries@, result),
        final(state).corpus == old(state).corpus,
        final(state).metadata == old(state).metadata,
        final(state).neighbours is Some,
        follows(
            old(state).neighbours->0,
            final(state).neighbours->0,
            old(state).corpus.entries@,
        ),
{
    lemma_tallies(old(state).corpus.entries@, result);
    lemma_follows(
        old(state).neighbours->0,
        final(state).neighbours->0,
        old(state).corpus.entries@,
    );
}

/// What a recalculation reads is there: the neighbours, what each new testcase was the first to
/// cover, what each testcase covers and how long it took, and for each reachability that is listed
/// its direct neighbour at depth 1. And the counts can be held.
pub open spec fn is_complete<W: Number>(state: State<W>) -> bool {
    let entries = state.corpus.entries@;
    &&& state.neighbours is Some
    &&& forall|k: int|
        0 <= k < entries.len() ==> {
            &&& (#[trigger] entries[k]).testcase.indexes is Some
            &&& entries[k].testcase.exec_time is Some
            &&& entries[k].testcase.novelties is Some
                || state.neighbours->0.corpus_ids_present_at_recalc@.contains(entries[k].id)
        }
    &&& forall|r: Reachability| #[trigger]
        is_listed(entries, r) ==> exists|direct: Reachability| #[trigger]
            is_listed(entries, direct) && direct.depth == 1 && direct.index
                == r.direct_neighbour_ancestor_index
    &&& counts_fit(entries)
}

pub(crate) proof fn lemma_complete<W: Number>(state: State<W>)
    ensures
        state.recalculable() <==> is_complete(state),
{
    let entries = state.corpus.entries@;
    let visits = reachable::visits(entries);
    lemma_counts_fit(entries);
    if state.recalculable() {
        let known = state.neighbours->0.corpus_ids_present_at_recalc@;
        assert forall|k: int| 0 <= k < entries.len() implies {
            &&& (#[trigger] entries[k]).testcase.indexes is Some
            &&& entries[k].testcase.exec_time is Some
            &&& entries[k].testcase.novelties is Some || known.contains(entries[k].id)
        } by {}
        assert forall|r: Reachability| #[trigger]
            is_listed(entries, r) implies exists|direct: Reachability| #[trigger]
            is_listed(entries, direct) && direct.depth == 1 && direct.index
                == r.direct_neighbour_ancestor_index by {
            lemma_listed(entries, r);
            let v = choose|v: int|
                0 <= v < visits.len() && (#[trigger] visits[v]).reachability == r;
            assert(reachable::has_direct(visits, r.direct_neighbour_ancestor_index));
            lemma_direct(entries, r.direct_neighbour_ancestor_index);
        }
    }
    if is_complete(state) {
        assert forall|v: int| 0 <= v < visits.len() implies reachable::has_direct(
            visits,
            (#[trigger] visits[v]).reachability.direct_neighbour_ancestor_index,
        ) by {
            let r = visits[v].reachability;
            lemma_listed(entries, r);
            assert(is_listed(entries, r));
            lemma_direct(entries, r.direct_neighbour_ancestor_index);
        }
        assert(scoring::ancestors_known(entries));
        assert(scoring::runs_recorded(entries));
    }
}

/// A recalculation is possible if and only if what it reads is there.
pub proof fn a_recalculation_needs_what_it_reads<F: TestcaseScore<W>, W: Number>(
    scheduler: ProbabilitySamplingScheduler<F, W>,
    state: State<W>,
    possible: bool,
)
    requires
        call_ensures(
            ProbabilitySamplingScheduler::<F, W>::can_recalc,
            (&scheduler, &state),
            possible,
        ),
    ensures
        possible <==> is_complete(state),
{
    lemma_complete(state);
}

/// A recalculation is due: it was asked for, the neighbours are recorded, and ten times as long as
/// the last one took has passed since.
pub open spec fn is_wanted<W: Number>(state: State<W>, now: u128) -> bool {
    &&& state.neighbours is Some
    &&& state.metadata matches Some(metadata) && metadata.needs_recalc && now
        - metadata.last_recalc_time >= 10 * metadata.last_recalc_duration
}

/// A recalculation is found to be due if and only if it is.
pub proof fn a_wanted_recalculation_is_due<F: TestcaseScore<W>, W: Number>(
    scheduler: ProbabilitySamplingScheduler<F, W>,
    state: State<W>,
    now: u128,
    due: bool,
)
    requires
        call_ensures(
            ProbabilitySamplingScheduler::<F, W>::recalc_due,
            (&scheduler, &state, now),
            due,
        ),
    ensures
        due <==> is_wanted(state, now),
{
}

/// Refreshing asks the graph about each testcase, with what the testcase covers and what all of
/// them cover, and puts the answer in the place of what the testcase listed before.
pub proof fn refreshing_asks_about_each_testcase<
    F: TestcaseScore<W>,
    W: Number,
    G: ControlFlowGraph,
>(
    scheduler: ProbabilitySamplingScheduler<F, W>,
    state: &mut State<W>,
    graph: G,
)
    requires
        call_ensures(
            ProbabilitySamplingScheduler::<F, W>::refresh_reachabilities::<G>,
            (&scheduler, state, &graph),
            (),
        ),
    ensures
        answers(*old(state), *final(state), graph),
{
}

/// The states are equal but for what the testcases list, which is what the graph answers about
/// each.
pub open spec fn answers<W: Number, G: ControlFlowGraph>(
    before: State<W>,
    after: State<W>,
    graph: G,
) -> bool {
    let a = before.corpus.entries@;
    let b = after.corpus.entries@;
    &&& after.metadata == before.metadata
    &&& after.neighbours == before.neighbours
    &&& after.corpus.current == before.corpus.current
    &&& b.len() == a.len()
    &&& forall|k: int|
        0 <= k < a.len() ==> {
            &&& (#[trigger] b[k]).id == a[k].id
            &&& b[k].testcase.parent_id == a[k].testcase.parent_id
            &&& b[k].testcase.len == a[k].testcase.len
            &&& b[k].testcase.exec_time == a[k].testcase.exec_time
            &&& b[k].testcase.indexes == a[k].testcase.indexes
            &&& b[k].testcase.novelties == a[k].testcase.novelties
            &&& b[k].testcase.num_mutations_executed == a[k].testcase.num_mutations_executed
            &&& call_ensures(
                G::get_all_neighbours_full_depth,
                (
                    &graph,
                    &a[k].testcase.indexes->0,
                    &before.neighbours->0.covered_blocks,
                ),
                b[k].testcase.reachabilities,
            )
        }
}

/// The testcase has the probability, in place of the one that it had, and the total is less that
/// one and more by the new one. The order of the others does not change.
pub open spec fn gives<W: Number>(
    before: ProbabilityMetadata<W>,
    after: ProbabilityMetadata<W>,
    id: CorpusId,
    probability: W,
) -> bool {
    let a = before.map.order();
    let b = after.map.order();
    &&& after.map@ == before.map@.insert(id.0, probability)
    &&& if before.map@.dom().contains(id.0) {
        &&& b.len() == a.len()
        &&& forall|i: int|
            0 <= i < a.len() ==> (#[trigger] b[i]) == (if a[i].0 == id.0 {
                (id.0, probability)
            } else {
                a[i]
            })
        &&& exists|without: W| #[trigger]
            call_ensures(W::minus, (before.total_probability, before.map@[id.0]), without)
                && call_ensures(W::plus, (without, probability), after.total_probability)
    } else {
        &&& b == a.push((id.0, probability))
        &&& call_ensures(
            W::plus,
            (before.total_probability, probability),
            after.total_probability,
        )
    }
}

proof fn lemma_gives<W: Number>(
    before: ProbabilityMetadata<W>,
    after: ProbabilityMetadata<W>,
    id: CorpusId,
    probability: W,
)
    requires
        before.map.wf(),
        scheduler::gained(before, after, id, probability),
    ensures
        gives(before, after, id, probability),
{
    before.map.lemma_order();
    let a = before.map.order();
    if table::has_key(a, id.0) {
        let i = choose|i: int| 0 <= i < a.len() && (#[trigger] a[i]).0 == id.0;
        assert(before.map@.dom().contains(a[i].0));
    }
}

pub(crate) proof fn lemma_is_in(corpus: Corpus, id: CorpusId)
    ensures
        corpus.holds(id) <==> is_in(corpus.entries@, id),
{
    let entries = corpus.entries@;
    if corpus.holds(id) {
        let k = choose|k: int| 0 <= k < entries.len() && model::ids_of(entries)[k] == id;
        assert(entries[k].id == id);
    }
    if is_in(entries, id) {
        let k = choose|k: int| 0 <= k < entries.len() && (#[trigger] entries[k]).id == id;
        assert(model::ids_of(entries)[k] == id);
    }
}

/// Adding a testcase makes the one that was scheduled last its parent, gives it the average
/// probability, or one where nothing has a probability, and asks for a recalculation. It changes
/// nothing else, and fails only where the corpus does not hold the testcase.
pub proof fn adding_gives_the_average<F: TestcaseScore<W>, W: Number>(
    scheduler: &mut ProbabilitySamplingScheduler<F, W>,
    state: &mut State<W>,
    id: CorpusId,
    result: Result<(), Error>,
)
    requires
        old(state).metadata matches Some(metadata) ==> metadata.map.wf(),
        call_ensures(
            ProbabilitySamplingScheduler::<F, W>::on_add,
            (scheduler, state, id),
            result,
        ),
    ensures
        result is Ok <==> is_in(old(state).corpus.entries@, id),
        result matches Err(error) ==> error == Error::KeyNotFound(id),
        result is Err ==> *final(state) == *old(state),
        result is Ok ==> adds(*old(state), *final(state), id),
{
    let before = *old(state);
    let after = *final(state);
    assert(scheduler::added(before, after, id, result));
    lemma_is_in(before.corpus, id);
    if result is Ok {
        let start = choose|start: ProbabilityMetadata<W>|
            {
                &&& #[trigger] scheduler::starts_from(before.metadata, start)
                &&& scheduler::joined(start, after.metadata->0, id)
            };
        let asking = ProbabilityMetadata { needs_recalc: true, ..start };
        lemma_gives(asking, after.metadata->0, id, after.metadata->0.map@[id.0]);
        assert(starts(before, start));
        assert(gives(start, after.metadata->0, id, after.metadata->0.map@[id.0]));
    }
}

/// The probabilities that there are before a testcase is added: none, with the total zero, where
/// there is no metadata yet.
pub open spec fn starts<W: Number>(state: State<W>, start: ProbabilityMetadata<W>) -> bool {
    match state.metadata {
        Some(metadata) => start == metadata,
        None => {
            &&& start.map@ == Map::<usize, W>::empty()
            &&& start.map.order().len() == 0
            &&& call_ensures(W::of_integer, (0,), start.total_probability)
            &&& start.last_recalc_time == 0
            &&& start.last_recalc_duration == 0
        },
    }
}

/// The state after a testcase of the corpus was added.
pub open spec fn adds<W: Number>(before: State<W>, after: State<W>, id: CorpusId) -> bool {
    let a = before.corpus.entries@;
    let b = after.corpus.entries@;
    &&& after.corpus.current == before.corpus.current
    &&& after.neighbours == before.neighbours
    &&& b.len() == a.len()
    &&& forall|k: int|
        0 <= k < a.len() ==> {
            &&& (#[trigger] b[k]).id == a[k].id
            &&& b[k].testcase.parent_id == (if a[k].id == id {
                before.corpus.current
            } else {
                a[k].testcase.parent_id
            })
            &&& b[k].testcase.len == a[k].testcase.len
            &&& b[k].testcase.exec_time == a[k].testcase.exec_time
            &&& b[k].testcase.indexes == a[k].testcase.indexes
            &&& b[k].testcase.novelties == a[k].testcase.novelties
            &&& b[k].testcase.num_mutations_executed == a[k].testcase.num_mutations_executed
            &&& b[k].testcase.reachabilities == a[k].testcase.reachabilities
        }
    &&& after.metadata matches Some(metadata) && metadata.needs_recalc && exists|
        start: ProbabilityMetadata<W>,
    |
        {
            &&& #[trigger] starts(before, start)
            &&& gives(start, metadata, id, metadata.map@[id.0])
            &&& metadata.last_recalc_time == start.last_recalc_time
            &&& metadata.last_recalc_duration == start.last_recalc_duration
            &&& if start.map@.dom().len() == 0 {
                call_ensures(W::of_integer, (1,), metadata.map@[id.0])
            } else {
                exists|len: W|
                    call_ensures(W::of_integer, (start.map@.dom().len() as u128,), len)
                        && #[trigger] call_ensures(
                        W::over,
                        (start.total_probability, len),
                        metadata.map@[id.0],
                    )
            }
        }
}

/// Storing a probability asks the calculator about the testcase and gives the testcase the score.
/// It changes nothing else, and nothing at all where the corpus does not hold the testcase or the
/// calculator gives none.
pub proof fn storing_gives_the_score<F: TestcaseScore<W>, W: Number>(
    scheduler: ProbabilitySamplingScheduler<F, W>,
    state: &mut State<W>,
    id: CorpusId,
    result: Result<(), Error>,
)
    requires
        old(state).metadata matches Some(metadata) && metadata.map.wf(),
        call_ensures(
            ProbabilitySamplingScheduler::<F, W>::store_probability,
            (&scheduler, state, id),
            result,
        ),
    ensures
        !is_in(old(state).corpus.entries@, id) ==> result == Err::<(), Error>(
            Error::KeyNotFound(id),
        ),
        is_in(old(state).corpus.entries@, id) ==> exists|outcome: Result<W, Error>|
            {
                &&& #[trigger] scores::<F, W>(*old(state), id, outcome)
                &&& match outcome {
                    Ok(score) => {
                        &&& result is Ok
                        &&& final(state).metadata is Some
                        &&& gives(old(state).metadata->0, final(state).metadata->0, id, score)
                    },
                    Err(error) => result == Err::<(), Error>(error),
                }
            },
        result is Err ==> *final(state) == *old(state),
        final(state).corpus == old(state).corpus,
        final(state).neighbours == old(state).neighbours,
        final(state).metadata matches Some(metadata) && {
            &&& metadata.needs_recalc == old(state).metadata->0.needs_recalc
            &&& metadata.last_recalc_time == old(state).metadata->0.last_recalc_time
            &&& metadata.last_recalc_duration == old(state).metadata->0.last_recalc_duration
        },
{
    let before = *old(state);
    let after = *final(state);
    assert(scheduler::stored::<F, W>(before, after, id, result));
    lemma_is_in(before.corpus, id);
    if before.corpus.holds(id) {
        if result is Ok {
            let score = choose|score: W|
                {
                    &&& #[trigger] scheduler::scored_by::<F, W>(before, id, Ok(score))
                    &&& scheduler::gained(before.metadata->0, after.metadata->0, id, score)
                };
            lemma_gives(before.metadata->0, after.metadata->0, id, score);
            let outcome: Result<W, Error> = Ok(score);
            assert(scores::<F, W>(before, id, outcome));
        } else {
            let outcome: Result<W, Error> = Err(result->Err_0);
            assert(scores::<F, W>(before, id, outcome));
        }
    }
}

/// The calculator gives the outcome for the testcase.
pub open spec fn scores<F: TestcaseScore<W>, W: Number>(
    state: State<W>,
    id: CorpusId,
    outcome: Result<W, Error>,
) -> bool {
    exists|k: int|
        0 <= k < state.corpus.entries@.len() && (#[trigger] state.corpus.entries@[k]).id == id
            && call_ensures(F::compute, (&state, &state.corpus.entries@[k].testcase), outcome)
}

/// The state can be worked on: no two testcases have the same name, and the table of probabilities
/// was built by insertions.
pub open spec fn is_sound<W: Number>(state: State<W>) -> bool {
    &&& are_distinct(state.corpus.entries@)
    &&& state.metadata matches Some(metadata) ==> metadata.map.wf()
}

/// A testcase may be added to every sound state, and the state stays sound.
pub proof fn a_testcase_can_always_be_added<F: TestcaseScore<W>, W: Number>(
    scheduler: &mut ProbabilitySamplingScheduler<F, W>,
    state: &mut State<W>,
    id: CorpusId,
    result: Result<(), Error>,
)
    requires
        is_sound(*old(state)),
    ensures
        call_requires(ProbabilitySamplingScheduler::<F, W>::on_add, (scheduler, state, id)),
        call_ensures(
            ProbabilitySamplingScheduler::<F, W>::on_add,
            (scheduler, state, id),
            result,
        ) ==> is_sound(*final(state)),
{
}

/// A score may be stored in every sound state with probabilities, and the state stays sound.
pub proof fn a_score_can_always_be_stored<F: TestcaseScore<W>, W: Number>(
    scheduler: ProbabilitySamplingScheduler<F, W>,
    state: &mut State<W>,
    id: CorpusId,
    result: Result<(), Error>,
)
    requires
        is_sound(*old(state)),
        old(state).metadata is Some,
        F::usable(),
    ensures
        call_requires(
            ProbabilitySamplingScheduler::<F, W>::store_probability,
            (&scheduler, state, id),
        ),
        call_ensures(
            ProbabilitySamplingScheduler::<F, W>::store_probability,
            (&scheduler, state, id),
            result,
        ) ==> is_sound(*final(state)),
{
}

/// Every sound state with probabilities in which everything is there that a recalculation reads
/// may be recalculated.
pub proof fn what_is_complete_can_be_recalculated<F: TestcaseScore<W>, W: Number>(
    scheduler: ProbabilitySamplingScheduler<F, W>,
    state: &mut State<W>,
)
    requires
        is_sound(*old(state)),
        old(state).metadata is Some,
        is_complete(*old(state)),
    ensures
        call_requires(
            ProbabilitySamplingScheduler::<F, W>::recalc_all_probabilities,
            (&scheduler, state),
        ),
        call_requires(
            ProbabilitySamplingScheduler::<F, W>::recalculate_reachable_blocks,
            (&scheduler, state),
        ),
{
    lemma_complete(*old(state));
}

/// The time is one at which a testcase can be scheduled: the clock has not gone back, and ten times
/// the last duration can be held.
pub open spec fn is_in_time<W: Number>(metadata: ProbabilityMetadata<W>, now: u128) -> bool {
    metadata.needs_recalc ==> metadata.last_recalc_time <= now && 10
        * metadata.last_recalc_duration <= u128::MAX
}

/// A testcase may be scheduled from every sound state in which something has a probability, or a
/// recalculation is wanted that is possible; and from an empty corpus.
pub proof fn a_testcase_can_be_scheduled<
    F: TestcaseScore<W>,
    W: Number,
    C: FnOnce(RecalcReport) -> (u128, u128),
>(
    scheduler: &mut ProbabilitySamplingScheduler<F, W>,
    state: &mut State<W>,
    rand: &mut StdRand,
    draw: u64,
    now: u128,
    finished: C,
)
    requires
        is_sound(*old(state)),
        old(state).corpus.entries@.len() > 0 ==> {
            &&& old(state).metadata matches Some(metadata) && is_in_time(metadata, now)
            &&& if is_wanted(*old(state), now) {
                is_complete(*old(state))
            } else {
                old(state).metadata->0.map@.dom().len() > 0
            }
        },
        forall|report: RecalcReport| call_requires(finished, (report,)),
    ensures
        call_requires(
            ProbabilitySamplingScheduler::<F, W>::next_for_draw::<C>,
            (scheduler, state, draw, now, finished),
        ),
        call_requires(
            ProbabilitySamplingScheduler::<F, W>::next::<C>,
            (scheduler, state, rand, now, finished),
        ),
{
    lemma_complete(*old(state));
}

/// A testcase may be scheduled with a graph from every sound state in which something has a
/// probability, or a recalculation is wanted and what each testcase covers is recorded; and from an
/// empty corpus.
pub proof fn a_testcase_can_be_scheduled_with_a_graph<
    F: TestcaseScore<W>,
    W: Number,
    G: ControlFlowGraph,
    C: FnOnce(RecalcReport) -> (u128, u128),
>(
    scheduler: &mut ProbabilitySamplingScheduler<F, W>,
    state: &mut State<W>,
    graph: G,
    rand: &mut StdRand,
    now: u128,
    finished: C,
)
    requires
        is_sound(*old(state)),
        old(state).corpus.entries@.len() > 0 ==> {
            &&& old(state).metadata matches Some(metadata) && is_in_time(metadata, now)
            &&& if is_wanted(*old(state), now) {
                forall|k: int|
                    0 <= k < old(state).corpus.entries@.len() ==> (
                    #[trigger] old(state).corpus.entries@[k]).testcase.indexes is Some
            } else {
                old(state).metadata->0.map@.dom().len() > 0
            }
        },
        forall|report: RecalcReport| call_requires(finished, (report,)),
    ensures
        call_requires(
            ProbabilitySamplingScheduler::<F, W>::next_with_graph::<G, C>,
            (scheduler, state, &graph, rand, now, finished),
        ),
{
}

/// The graph may be asked wherever the neighbours and what each testcase covers are recorded.
pub proof fn the_graph_can_be_asked<F: TestcaseScore<W>, W: Number, G: ControlFlowGraph>(
    scheduler: ProbabilitySamplingScheduler<F, W>,
    state: &mut State<W>,
    graph: G,
)
    requires
        old(state).neighbours is Some,
        forall|k: int|
            0 <= k < old(state).corpus.entries@.len() ==> (
            #[trigger] old(state).corpus.entries@[k]).testcase.indexes is Some,
    ensures
        call_requires(
            ProbabilitySamplingScheduler::<F, W>::refresh_reachabilities::<G>,
            (&scheduler, state, &graph),
        ),
{
}

/// Whether a recalculation is due may be asked at every time that is not before the last one,
/// where ten times its duration can be held.
pub proof fn the_time_can_be_compared<F: TestcaseScore<W>, W: Number>(
    scheduler: ProbabilitySamplingScheduler<F, W>,
    state: State<W>,
    now: u128,
)
    requires
        state.metadata matches Some(metadata) ==> is_in_time(metadata, now),
    ensures
        call_requires(
            ProbabilitySamplingScheduler::<F, W>::recalc_due,
            (&scheduler, &state, now),
        ),
{
}

/// New metadata holds no probability, a total of zero, and no request for a recalculation.
pub proof fn new_metadata_holds_nothing<W: Number>(metadata: ProbabilityMetadata<W>)
    requires
        call_ensures(ProbabilityMetadata::<W>::new, (), metadata),
    ensures
        metadata.map.wf(),
        metadata.map@ == Map::<usize, W>::empty(),
        metadata.map.order().len() == 0,
        call_ensures(W::of_integer, (0,), metadata.total_probability),
        !metadata.needs_recalc,
        metadata.last_recalc_time == 0,
        metadata.last_recalc_duration == 0,
{
}

/// Default metadata holds no probability, a total of zero, and no request for a recalculation.
pub proof fn default_metadata_holds_nothing<W: Number>(metadata: ProbabilityMetadata<W>)
    requires
        call_ensures(ProbabilityMetadata::<W>::default, (), metadata),
    ensures
        metadata.map.wf(),
        metadata.map@ == Map::<usize, W>::empty(),
        metadata.map.order().len() == 0,
        call_ensures(W::of_integer, (0,), metadata.total_probability),
        !metadata.needs_recalc,
        metadata.last_recalc_time == 0,
        metadata.last_recalc_duration == 0,
{
}

/// The order of a table lists every key with its value, and each once.
pub proof fn a_table_lists_every_key_once<W: Copy>(table: Table<W>, walk: Vec<(usize, W)>)
    requires
        table.wf(),
        call_ensures(Table::<W>::walk, (&table,), walk),
    ensures
        walk@ == table.order(),
        forall|key: usize| #[trigger]
            table@.dom().contains(key) ==> table.order().contains((key, table@[key])),
        forall|i: int|
            0 <= i < table.order().len() ==> table@.dom().contains(
                (#[trigger] table.order()[i]).0,
            ),
        forall|i: int, j: int|
            0 <= i < j < table.order().len() ==> (#[trigger] table.order()[i]).0 != (
            #[trigger] table.order()[j]).0,
{
    table.lemma_order();
    let order = table.order();
    assert forall|key: usize| #[trigger] table@.dom().contains(key) implies order.contains(
        (key, table@[key]),
    ) by {
        let i = choose|i: int| 0 <= i < order.len() && (#[trigger] order[i]).0 == key;
        assert(order[i] == (key, table@[key]));
    }
}

/// A table gives for each key what it holds, and tells how many keys it holds.
pub proof fn a_table_gives_what_it_holds<W: Copy>(
    table: Table<W>,
    key: usize,
    value: Option<W>,
    len: usize,
)
    requires
        table.wf(),
        call_ensures(Table::<W>::get, (&table, key), value),
        call_ensures(Table::<W>::len, (&table,), len),
    ensures
        value is Some <==> table@.dom().contains(key),
        value matches Some(v) ==> table.order().contains((key, v)),
        len == table.order().len(),
{
    table.lemma_order();
    if value is Some {
        let order = table.order();
        let i = choose|i: int| 0 <= i < order.len() && (#[trigger] order[i]).0 == key;
        assert(order[i] == (key, value->0));
    }
}

/// Inserting puts a new key last, and leaves a key that is there where it is.
pub proof fn inserting_keeps_the_order<W: Copy>(table: &mut Table<W>, key: usize, value: W)
    requires
        old(table).wf(),
        call_ensures(Table::<W>::insert, (table, key, value), ()),
    ensures
        final(table).wf(),
        final(table)@ == old(table)@.insert(key, value),
        !old(table)@.dom().contains(key) ==> final(table).order() == old(table).order().push(
            (key, value),
        ),
        old(table)@.dom().contains(key) ==> {
            &&& final(table).order().len() == old(table).order().len()
            &&& forall|i: int|
                0 <= i < old(table).order().len() ==> (#[trigger] final(table).order()[i]) == (
                if old(table).order()[i].0 == key {
                    (key, value)
                } else {
                    old(table).order()[i]
                })
        },
{
    old(table).lemma_order();
    let a = old(table).order();
    if table::has_key(a, key) {
        let i = choose|i: int| 0 <= i < a.len() && (#[trigger] a[i]).0 == key;
        assert(old(table)@.dom().contains(a[i].0));
    }
}

/// A corpus is made of all testcases whose names are distinct, and of no others.
pub proof fn a_corpus_has_distinct_names(entries: Vec<Entry>, corpus: Option<Corpus>)
    requires
        call_ensures(Corpus::new, (entries,), corpus),
    ensures
        corpus is Some <==> are_distinct(entries@),
        corpus matches Some(c) ==> c.entries == entries && c.current is None,
{
}

/// A new state holds what it is made of, and no probabilities.
pub proof fn a_new_state_has_no_probabilities<W: Number>(
    corpus: Corpus,
    neighbours: Option<MapNeighboursFeedbackMetadata>,
    state: State<W>,
)
    requires
        call_ensures(State::<W>::new, (corpus, neighbours), state),
    ensures
        state.corpus == corpus,
        state.metadata is None,
        state.neighbours == neighbours,
{
}

/// The names of a corpus are those of its testcases, in order, and there are as many.
pub proof fn the_names_are_those_of_the_testcases(
    corpus: Corpus,
    ids: Vec<CorpusId>,
    count: usize,
)
    requires
        call_ensures(Corpus::ids, (&corpus,), ids),
        call_ensures(Corpus::count, (&corpus,), count),
    ensures
        ids@.len() == count,
        count == corpus.entries@.len(),
        forall|k: int| 0 <= k < ids@.len() ==> (#[trigger] ids@[k]) == corpus.entries@[k].id,
{
    assert forall|k: int| 0 <= k < ids@.len() implies (#[trigger] ids@[k])
        == corpus.entries@[k].id by {
        assert(model::ids_of(corpus.entries@)[k] == corpus.entries@[k].id);
    }
}

/// A testcase is found where it stands, and found nowhere only if the corpus does not hold it.
pub proof fn a_testcase_is_found_where_it_stands(
    corpus: Corpus,
    id: CorpusId,
    position: Option<usize>,
)
    requires
        call_ensures(Corpus::position, (&corpus, id), position),
    ensures
        position is Some <==> is_in(corpus.entries@, id),
        position matches Some(n) ==> n < corpus.entries@.len() && corpus.entries@[n as int].id
            == id,
{
    lemma_is_in(corpus, id);
    if position is Some {
        assert(corpus.entries@[position->0 as int].id == id);
    }
}

/// A set of the items of a list holds those, and a set holds what it is found to hold.
pub proof fn a_set_holds_its_items(
    items: Vec<usize>,
    set: IndexSet,
    item: usize,
    held: bool,
)
    requires
        call_ensures(IndexSet::of, (&items,), set),
        call_ensures(IndexSet::holds, (&set, item), held),
    ensures
        held <==> items@.contains(item),
        held <==> collections::index_set_contents(set).contains(item),
{
}

/// A report is asked about what it tells.
pub proof fn a_report_tells_what_it_is_asked(
    report: RecalcReport,
    id: CorpusId,
    by_reach: bool,
    by_coverage: bool,
    counts: (usize, usize, usize),
)
    requires
        call_ensures(RecalcReport::is_reachability_favored, (&report, id), by_reach),
        call_ensures(RecalcReport::is_coverage_favored, (&report, id), by_coverage),
        call_ensures(RecalcReport::counts, (&report,), counts),
    ensures
        by_reach <==> collections::index_set_contents(report.reachability_favored_ids).contains(
            id.0,
        ),
        by_coverage <==> collections::index_set_contents(report.coverage_favored_ids).contains(
            id.0,
        ),
        counts.0 == collections::index_set_contents(report.reachability_favored_ids).len(),
        counts.1 == collections::index_set_contents(report.coverage_favored_ids).len(),
        counts.2 == collections::index_set_contents(report.favored_edges).len(),
{
}

} // verus!
