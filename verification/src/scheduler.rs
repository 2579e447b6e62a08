//! The scheduler.

use std::marker::PhantomData;

use vstd::pervasive::unreached;
use vstd::prelude::*;

use libafl_bolts::rands::{Rand, StdRand};

use crate::collections::IndexSet;
use crate::favored;
use crate::favored::RecalcReport;
use crate::model;
use crate::model::{
    Corpus, CorpusId, Entry, Error, ProbabilityMetadata, Reachability, State, Testcase,
};
use crate::numbers::Number;
use crate::operations;
use crate::ordering;
use crate::outcomes;
use crate::reachable;
use crate::reachable::ReachableBlocksResult;
use crate::sampling;
use crate::sampling::MAX_RAND;
use crate::scoring;
use crate::table;

verus! {

/// Gives a testcase a score before anything is known of its neighbours.
pub trait TestcaseScore<W: Number> {
    /// The calculator is meant to be asked.
    open spec fn usable() -> bool {
        true
    }

    /// The score of a testcase of the corpus.
    fn compute(state: &State<W>, entry: &Testcase) -> Result<W, Error>
        requires
            Self::usable(),
    ;
}

/// What is known of the control flow of the program under test.
pub trait ControlFlowGraph {
    /// The blocks that are reachable from the covered indexes without being covered themselves.
    ///
    /// A reachability that is listed more than once counts as often as it is listed.
    fn get_all_neighbours_full_depth(
        &self,
        covered_indexes: &Vec<usize>,
        covered_blocks: &IndexSet,
    ) -> Vec<Reachability>;
}

/// The covered indexes of every testcase are recorded.
pub open spec fn indexes_recorded(entries: Seq<Entry>) -> bool {
    forall|i: int| 0 <= i < entries.len() ==> (#[trigger] entries[i]).testcase.indexes is Some
}

/// The reachabilities of a testcase are what the graph gives for its covered indexes and the
/// covered blocks, and nothing else of it changes.
pub open spec fn asked<G: ControlFlowGraph>(
    graph: G,
    covered_blocks: IndexSet,
    before: Entry,
    after: Entry,
) -> bool {
    &&& call_ensures(
        G::get_all_neighbours_full_depth,
        (&graph, &before.testcase.indexes->0, &covered_blocks),
        after.testcase.reachabilities,
    )
    &&& after == Entry {
        testcase: Testcase {
            reachabilities: after.testcase.reachabilities,
            ..before.testcase
        },
        ..before
    }
}

/// The graph was asked about every testcase.
pub open spec fn refreshed<G: ControlFlowGraph>(
    graph: G,
    covered_blocks: IndexSet,
    before: Seq<Entry>,
    after: Seq<Entry>,
) -> bool {
    &&& after.len() == before.len()
    &&& forall|k: int|
        0 <= k < before.len() ==> asked(graph, covered_blocks, before[k], #[trigger] after[k])
}

/// A dummy TestcaseScore calculator, which is never to be asked.
#[derive(Debug)]
pub struct UncoveredNeighboursMaxDistribution<I> {
    phantom: PhantomData<I>,
}

impl<I> Clone for UncoveredNeighboursMaxDistribution<I> {
    fn clone(&self) -> (copy: Self)
        ensures
            copy == *self,
    {
        UncoveredNeighboursMaxDistribution { phantom: PhantomData }
    }
}

impl<W: Number, I> TestcaseScore<W> for UncoveredNeighboursMaxDistribution<I> {
    open spec fn usable() -> bool {
        false
    }

    fn compute(_state: &State<W>, _entry: &Testcase) -> (score: Result<W, Error>)
        ensures
            score matches Ok(zero) && call_ensures(W::of_integer, (0,), zero),
    {
        unreached()
    }
}

/// A Probability sampling scheduler that bases testcase selection probabilities on the number of
/// reachable edges
pub type UncoveredNeighboursProbabilitySamplingScheduler<W> = ProbabilitySamplingScheduler<
    UncoveredNeighboursMaxDistribution<W>,
    W,
>;

/// Conduct reservoir sampling (probabilistic sampling) over all corpus elements.
#[derive(Debug)]
pub struct ProbabilitySamplingScheduler<F, W> {
    phantom: PhantomData<(F, W)>,
}

impl<F, W> Clone for ProbabilitySamplingScheduler<F, W> {
    fn clone(&self) -> (copy: Self)
        ensures
            copy == *self,
    {
        ProbabilitySamplingScheduler { phantom: PhantomData }
    }
}

impl<F: TestcaseScore<W>, W: Number> Default for ProbabilitySamplingScheduler<F, W> {
    fn default() -> (scheduler: Self)
        ensures
            forall|other: Self| #[trigger] alike(scheduler, other),
    {
        Self::new()
    }
}

impl<W: Number> State<W> {
    /// What a recalculation reads is recorded, and what it counts can be held in machine
    /// integers.
    pub open spec fn recalculable(&self) -> bool {
        let entries = self.corpus.entries@;
        &&& self.neighbours matches Some(neighbours) && reachable::novelties_recorded(
            entries,
            neighbours.corpus_ids_present_at_recalc@,
        )
        &&& scoring::runs_recorded(entries)
        &&& reachable::tallies_fit(reachable::visits(entries))
        &&& scoring::ancestors_known(entries)
    }
}

/// The schedulers are the same.
pub open spec fn alike<F, W>(
    a: ProbabilitySamplingScheduler<F, W>,
    b: ProbabilitySamplingScheduler<F, W>,
) -> bool {
    a == b
}

/// The probabilities and what is known of the neighbours are recalculated.
pub open spec fn recalculated<W: Number>(before: State<W>, after: State<W>) -> bool {
    let entries = before.corpus.entries@;
    &&& after.wf()
    &&& after.corpus == before.corpus
    &&& after.neighbours is Some
    &&& reachable::neighbours_updated(before.neighbours->0, after.neighbours->0, entries)
    &&& after.metadata is Some
    &&& scoring::rescored(
        after.metadata->0.map@,
        after.metadata->0.map.order(),
        after.metadata->0.total_probability,
        entries,
    )
}

/// The report tells the choice of favored testcases, the cheapest testcases first.
pub open spec fn reports<W: Number>(report: RecalcReport, entries: Seq<Entry>) -> bool {
    &&& report.corpus_size == entries.len()
    &&& exists|order: Seq<usize>|
        {
            &&& ordering::is_permutation(order, entries.len())
            &&& ordering::is_ordered::<W>(order, entries)
            &&& report.tells(
                #[trigger] favored::selection(entries, reachable::visits(entries), order),
            )
        }
}

/// The outcome is one that the calculator gives for the testcase of that name.
pub open spec fn scored_by<F: TestcaseScore<W>, W: Number>(
    state: State<W>,
    id: CorpusId,
    outcome: Result<W, Error>,
) -> bool {
    exists|k: int|
        0 <= k < state.corpus.entries@.len() && (#[trigger] state.corpus.entries@[k]).id == id
            && call_ensures(F::compute, (&state, &state.corpus.entries@[k].testcase), outcome)
}

/// The total was computed when a testcase got a probability: less the one that it had before, if
/// it had one, and more by the new one.
pub open spec fn is_total_with<W: Number>(
    before: ProbabilityMetadata<W>,
    id: CorpusId,
    probability: W,
    total: W,
) -> bool {
    if before.map@.dom().contains(id.0) {
        exists|without: W| #[trigger]
            call_ensures(W::minus, (before.total_probability, before.map@[id.0]), without)
                && call_ensures(W::plus, (without, probability), total)
    } else {
        call_ensures(W::plus, (before.total_probability, probability), total)
    }
}

/// The testcase has the probability, in place of the one it had if it had one, and the total goes
/// with it.
pub open spec fn gained<W: Number>(
    before: ProbabilityMetadata<W>,
    after: ProbabilityMetadata<W>,
    id: CorpusId,
    probability: W,
) -> bool {
    &&& after.map@ == before.map@.insert(id.0, probability)
    &&& after.map.order() == table::inserted(before.map.order(), id.0, probability)
    &&& is_total_with(before, id, probability, after.total_probability)
    &&& after.needs_recalc == before.needs_recalc
    &&& after.last_recalc_time == before.last_recalc_time
    &&& after.last_recalc_duration == before.last_recalc_duration
}

/// The score of the testcase is calculated and stored, or nothing changes.
pub open spec fn stored<F: TestcaseScore<W>, W: Number>(
    before: State<W>,
    after: State<W>,
    id: CorpusId,
    result: Result<(), Error>,
) -> bool {
    if !before.corpus.holds(id) {
        result == Err::<(), Error>(Error::KeyNotFound(id)) && after == before
    } else {
        match result {
            Ok(_) => {
                &&& after.corpus == before.corpus
                &&& after.neighbours == before.neighbours
                &&& after.metadata is Some
                &&& exists|score: W|
                    {
                        &&& #[trigger] scored_by::<F, W>(before, id, Ok(score))
                        &&& gained(before.metadata->0, after.metadata->0, id, score)
                    }
            },
            Err(error) => scored_by::<F, W>(before, id, Err(error)) && after == before,
        }
    }
}

/// The testcase of that name has the one that was scheduled last as its parent.
pub open spec fn adopted(before: Corpus, after: Corpus, id: CorpusId) -> bool {
    &&& after.current == before.current
    &&& after.entries@.len() == before.entries@.len()
    &&& forall|k: int|
        0 <= k < before.entries@.len() ==> (#[trigger] after.entries@[k]) == (
        if before.entries@[k].id == id {
            Entry {
                id,
                testcase: Testcase {
                    parent_id: before.current,
                    ..before.entries@[k].testcase
                },
            }
        } else {
            before.entries@[k]
        })
}

/// The probabilities that a testcase is added to: new ones where there were none.
pub open spec fn starts_from<W: Number>(
    before: Option<ProbabilityMetadata<W>>,
    start: ProbabilityMetadata<W>,
) -> bool {
    match before {
        Some(metadata) => start == metadata,
        None => start.is_new(),
    }
}

/// The average of the probabilities was computed.
pub open spec fn is_average<W: Number>(metadata: ProbabilityMetadata<W>, average: W) -> bool {
    exists|len: W|
        {
            &&& call_ensures(W::of_integer, (metadata.map@.dom().len() as u128,), len)
            &&& #[trigger] call_ensures(W::over, (metadata.total_probability, len), average)
        }
}

/// The testcase is added to the probabilities that there were: with their average, or with one
/// where there were none.
pub open spec fn joined<W: Number>(
    start: ProbabilityMetadata<W>,
    after: ProbabilityMetadata<W>,
    id: CorpusId,
) -> bool {
    let probability = after.map@[id.0];
    &&& gained(ProbabilityMetadata { needs_recalc: true, ..start }, after, id, probability)
    &&& if start.map@.dom().len() > 0 {
        is_average(start, probability)
    } else {
        call_ensures(W::of_integer, (1,), probability)
    }
}

/// The testcase is added to the scheduler, unless the corpus does not hold it.
pub open spec fn added<W: Number>(
    before: State<W>,
    after: State<W>,
    id: CorpusId,
    result: Result<(), Error>,
) -> bool {
    if !before.corpus.holds(id) {
        result == Err::<(), Error>(Error::KeyNotFound(id)) && after == before
    } else {
        &&& result is Ok
        &&& adopted(before.corpus, after.corpus, id)
        &&& after.neighbours == before.neighbours
        &&& after.metadata is Some
        &&& exists|start: ProbabilityMetadata<W>|
            {
                &&& #[trigger] starts_from(before.metadata, start)
                &&& joined(start, after.metadata->0, id)
            }
    }
}

/// How many times as long as it took must have passed since the last recalculation.
pub const RECALC_INTERVAL: u128 = 10;

/// A recalculation is asked for, and enough time has passed since the last one.
pub open spec fn is_due<W: Number>(metadata: ProbabilityMetadata<W>, now: u128) -> bool {
    &&& metadata.needs_recalc
    &&& now - metadata.last_recalc_time >= RECALC_INTERVAL * metadata.last_recalc_duration
}

/// A recalculation is due, and the neighbours are recorded.
pub open spec fn will_recalc<W: Number>(state: State<W>, now: u128) -> bool {
    &&& state.metadata matches Some(metadata) && is_due(metadata, now)
    &&& state.neighbours is Some
}

/// The time can be compared with that of the last recalculation.
pub open spec fn is_timely<W: Number>(metadata: ProbabilityMetadata<W>, now: u128) -> bool {
    metadata.needs_recalc ==> {
        &&& metadata.last_recalc_time <= now
        &&& RECALC_INTERVAL * metadata.last_recalc_duration <= u128::MAX
    }
}

/// Some testcase of the corpus has a probability.
pub open spec fn has_candidate<W: Number>(state: State<W>) -> bool {
    exists|key: usize| #[trigger]
        state.metadata->0.map@.dom().contains(key) && scoring::names(
            state.corpus.entries@,
            key,
        )
}

/// There is something to choose from: something has a probability, or the testcases of the corpus
/// get one from a recalculation that is possible.
pub open spec fn can_schedule<W: Number>(state: State<W>, now: u128) -> bool {
    &&& state.metadata matches Some(metadata) && is_timely(metadata, now)
    &&& if will_recalc(state, now) {
        state.recalculable()
    } else {
        state.metadata->0.map@.dom().len() > 0
    }
}

/// The draw picks the testcase among those of the corpus, in the order of the table, and for its
/// part of their total.
pub open spec fn sampled<W: Number>(
    metadata: ProbabilityMetadata<W>,
    entries: Seq<Entry>,
    draw: u64,
    id: CorpusId,
) -> bool {
    let order = metadata.map.order();
    let held = sampling::held(order, entries);
    exists|total: W, n: int|
        {
            &&& #[trigger] sampling::leaves(order, entries, metadata.total_probability, total)
            &&& #[trigger] sampling::picks(held, total, draw, n)
            &&& 0 <= n < held.len()
            &&& held[n].0 == id.0
        }
}

/// The state after a testcase was scheduled: the probabilities are recalculated where that was
/// due, and the draw picks the testcase from them.
pub open spec fn scheduled<W: Number, C: FnOnce(RecalcReport) -> (u128, u128)>(
    before: State<W>,
    after: State<W>,
    draw: u64,
    now: u128,
    finished: C,
    id: CorpusId,
) -> bool {
    &&& after.wf()
    &&& after.corpus.entries == before.corpus.entries
    &&& after.corpus.current == Some(id)
    &&& after.corpus.holds(id)
    &&& after.metadata is Some
    &&& if will_recalc(before, now) {
        &&& recalculated(before, State { corpus: before.corpus, ..after })
        &&& !after.metadata->0.needs_recalc
        &&& exists|report: RecalcReport|
            {
                &&& #[trigger] reports::<W>(report, before.corpus.entries@)
                &&& call_ensures(
                    finished,
                    (report,),
                    (after.metadata->0.last_recalc_time, after.metadata->0.last_recalc_duration),
                )
            }
    } else {
        &&& after.metadata == before.metadata
        &&& after.neighbours == before.neighbours
    }
    &&& after.metadata->0.map@.dom().contains(id.0)
    &&& sampled(after.metadata->0, before.corpus.entries@, draw, id)
}

/// There is no testcase to schedule, and the error says so.
pub open spec fn is_empty_error(result: Result<CorpusId, Error>) -> bool {
    result matches Err(Error::Empty(message)) && message@ == "No entries in corpus"@
}

/// Nothing that has a probability is in the corpus, and the error says so.
pub open spec fn is_gone_error(result: Result<CorpusId, Error>) -> bool {
    result matches Err(Error::IllegalState(message)) && message@
        == "No testcase of the corpus has a probability"@
}

/// A recalculation is due that is not possible, and the error says so.
pub open spec fn is_impossible_error(result: Result<CorpusId, Error>) -> bool {
    result matches Err(Error::IllegalState(message)) && message@ == "No recalculation is possible"@
}

/// A testcase is scheduled for the draw, unless nothing that has a probability is in the corpus.
pub open spec fn scheduled_if_held<W: Number, C: FnOnce(RecalcReport) -> (u128, u128)>(
    before: State<W>,
    after: State<W>,
    draw: u64,
    now: u128,
    finished: C,
    result: Result<CorpusId, Error>,
) -> bool {
    if will_recalc(before, now) || has_candidate(before) {
        result matches Ok(id) && scheduled(before, after, draw, now, finished, id)
    } else {
        is_gone_error(result) && after == before
    }
}

/// A generator of random numbers of [`libafl_bolts`].
#[verifier::external_type_specification]
#[verifier::external_body]
pub struct ExStdRand(StdRand);

/// `libafl_bolts::rands::Rand::below`: draws a number below the bound. Returns it with what becomes
/// of the generator; which number it is, and what becomes of the generator, is left to chance.
#[verifier::external_body]
pub(crate) fn below(rand: StdRand, upper_bound_excl: u64) -> (drawn: (u64, StdRand))
    requires
        upper_bound_excl > 0,
    ensures
        drawn.0 < upper_bound_excl,
{
    let mut rand = rand;
    let draw = rand.below(upper_bound_excl);
    (draw, rand)
}

/// The generator becomes `after` from `before` when it draws that number below [`MAX_RAND`].
pub closed spec fn drawn(before: StdRand, after: StdRand, draw: u64) -> bool {
    call_ensures(below, (before, MAX_RAND), (draw, after))
}

/// A testcase was scheduled for what the generator drew, unless nothing that has a probability is
/// in the corpus.
pub open spec fn scheduled_at_random<W: Number, C: FnOnce(RecalcReport) -> (u128, u128)>(
    before: State<W>,
    after: State<W>,
    rand_before: StdRand,
    rand_after: StdRand,
    now: u128,
    finished: C,
    result: Result<CorpusId, Error>,
) -> bool {
    exists|draw: u64|
        {
            &&& draw < MAX_RAND
            &&& #[trigger] drawn(rand_before, rand_after, draw)
            &&& scheduled_if_held(before, after, draw, now, finished, result)
        }
}

/// What a testcase is scheduled from when the control flow graph is asked first, which it is where
/// a recalculation is due: the state with the answers.
pub open spec fn informed<W: Number, G: ControlFlowGraph>(
    before: State<W>,
    after: State<W>,
    graph: G,
    now: u128,
) -> bool {
    if will_recalc(before, now) {
        &&& after.corpus.current == before.corpus.current
        &&& after.metadata == before.metadata
        &&& after.neighbours == before.neighbours
        &&& refreshed(
            graph,
            before.neighbours->0.covered_blocks,
            before.corpus.entries@,
            after.corpus.entries@,
        )
    } else {
        after == before
    }
}

/// Gives a testcase a probability, in place of the one it had if it had one.
fn give<W: Number>(metadata: &mut ProbabilityMetadata<W>, id: CorpusId, probability: W)
    requires
        old(metadata).wf(),
    ensures
        final(metadata).wf(),
        gained(*old(metadata), *final(metadata), id, probability),
{
    if let Some(replaced) = metadata.map.get(id.0) {
        metadata.total_probability = metadata.total_probability.minus(replaced);
    }
    metadata.map.insert(id.0, probability);
    metadata.total_probability = metadata.total_probability.plus(probability);
}

impl<F: TestcaseScore<W>, W: Number> ProbabilitySamplingScheduler<F, W> {
    /// Creates a new [`struct@ProbabilitySamplingScheduler`]
    #[must_use]
    pub fn new() -> (scheduler: Self)
        ensures
            forall|other: Self| #[trigger] alike(scheduler, other),
    {
        let scheduler = ProbabilitySamplingScheduler { phantom: PhantomData };
        assert forall|other: Self| #[trigger] alike(scheduler, other) by {
            scheduler.lemma_holds_nothing(other);
        }
        scheduler
    }

    /// Asks the control flow graph what is reachable from the code that each testcase covers.
    pub fn refresh_reachabilities<G: ControlFlowGraph>(&self, state: &mut State<W>, graph: &G)
        requires
            old(state).neighbours is Some,
            indexes_recorded(old(state).corpus.entries@),
        ensures
            old(state).wf() ==> final(state).wf(),
            final(state).metadata == old(state).metadata,
            final(state).neighbours == old(state).neighbours,
            final(state).corpus.current == old(state).corpus.current,
            refreshed(
                *graph,
                old(state).neighbours->0.covered_blocks,
                old(state).corpus.entries@,
                final(state).corpus.entries@,
            ),
    {
        let ghost before = state.corpus.entries@;
        let count = state.corpus.count();
        for n in 0..count
            invariant
                count == before.len(),
                before == old(state).corpus.entries@,
                indexes_recorded(before),
                state.neighbours is Some,
                state.metadata == old(state).metadata,
                state.neighbours == old(state).neighbours,
                state.corpus.current == old(state).corpus.current,
                state.corpus.entries@.len() == before.len(),
                forall|k: int|
                    n <= k < before.len() ==> (#[trigger] state.corpus.entries@[k]) == before[k],
                forall|k: int|
                    0 <= k < n ==> asked(
                        *graph,
                        state.neighbours->0.covered_blocks,
                        before[k],
                        #[trigger] state.corpus.entries@[k],
                    ),
        {
            let list = match (&state.corpus.entries[n].testcase.indexes, &state.neighbours) {
                (Some(covered_indexes), Some(neighbours)) => graph.get_all_neighbours_full_depth(
                    covered_indexes,
                    &neighbours.covered_blocks,
                ),
                _ => unreached(),
            };
            state.corpus.entries[n].testcase.reachabilities = list;
        }
    }

    /// Counts over all corpus entries how often each block is reachable, and at which depth, and
    /// brings the set of reachable blocks up to date.
    pub fn recalculate_reachable_blocks(&self, state: &mut State<W>) -> (result:
        ReachableBlocksResult)
        requires
            old(state).neighbours matches Some(neighbours) && reachable::novelties_recorded(
                old(state).corpus.entries@,
                neighbours.corpus_ids_present_at_recalc@,
            ),
            reachable::tallies_fit(reachable::visits(old(state).corpus.entries@)),
        ensures
            result.tallies(reachable::visits(old(state).corpus.entries@)),
            final(state).corpus == old(state).corpus,
            final(state).metadata == old(state).metadata,
            final(state).neighbours is Some,
            reachable::neighbours_updated(
                old(state).neighbours->0,
                final(state).neighbours->0,
                old(state).corpus.entries@,
            ),
    {
        match &mut state.neighbours {
            Some(neighbours) => {
                reachable::update_neighbours(neighbours, &state.corpus.entries);
            },
            None => {},
        }
        match reachable::tally(&state.corpus.entries) {
            Some(result) => result,
            None => unreached(),
        }
    }

    /// Recalculate the probability of each testcase being selected for mutation
    pub fn recalc_all_probabilities(&self, state: &mut State<W>) -> (result: Result<
        RecalcReport,
        Error,
    >)
        requires
            old(state).wf(),
            old(state).metadata is Some,
            old(state).recalculable(),
        ensures
            recalculated(*old(state), *final(state)),
            final(state).metadata->0.needs_recalc == old(state).metadata->0.needs_recalc,
            final(state).metadata->0.last_recalc_time == old(state).metadata->0.last_recalc_time,
            final(state).metadata->0.last_recalc_duration == old(
                state,
            ).metadata->0.last_recalc_duration,
            result matches Ok(report) && reports::<W>(report, old(state).corpus.entries@),
    {
        let tallies = self.recalculate_reachable_blocks(state);
        match &mut state.metadata {
            Some(metadata) => Ok(scoring::rescore(metadata, &state.corpus.entries, &tallies)),
            None => unreached(),
        }
    }

    /// Whether a recalculation of the state is possible.
    pub fn can_recalc(&self, state: &State<W>) -> (possible: bool)
        ensures
            possible == state.recalculable(),
    {
        let entries = &state.corpus.entries;
        match &state.neighbours {
            Some(neighbours) => {
                reachable::are_novelties_recorded(
                    entries,
                    &neighbours.corpus_ids_present_at_recalc,
                ) && scoring::are_runs_recorded(entries) && match reachable::tally(entries) {
                    Some(tallies) => scoring::are_ancestors_known(entries, &tallies),
                    None => false,
                }
            },
            None => false,
        }
    }

    /// Calculate the score and store in `ProbabilityMetadata`
    pub fn store_probability(&self, state: &mut State<W>, idx: CorpusId) -> (result: Result<
        (),
        Error,
    >)
        requires
            old(state).wf(),
            old(state).metadata is Some,
            F::usable(),
        ensures
            final(state).wf(),
            stored::<F, W>(*old(state), *final(state), idx, result),
    {
        match state.corpus.position(idx) {
            Some(n) => {
                let outcome = F::compute(&*state, &state.corpus.entries[n].testcase);
                assert(model::ids_of(state.corpus.entries@)[n as int] == idx);
                assert(scored_by::<F, W>(*old(state), idx, outcome));
                match outcome {
                    Ok(score) => {
                        match &mut state.metadata {
                            Some(metadata) => {
                                give(metadata, idx, score);
                                Ok(())
                            },
                            None => unreached(),
                        }
                    },
                    Err(error) => Err(error),
                }
            },
            None => Err(Error::KeyNotFound(idx)),
        }
    }

    /// Adds a testcase of the corpus to the scheduler: it gets the average probability, or one
    /// where no testcase has a probability, until the next recalculation, which it asks for.
    pub fn on_add(&mut self, state: &mut State<W>, idx: CorpusId) -> (result: Result<(), Error>)
        requires
            old(state).wf(),
        ensures
            final(state).wf(),
            added(*old(state), *final(state), idx, result),
    {
        let n = match state.corpus.position(idx) {
            Some(n) => n,
            None => {
                return Err(Error::KeyNotFound(idx));
            },
        };
        assert(model::ids_of(state.corpus.entries@)[n as int] == idx);
        let current_idx = state.corpus.current;
        state.corpus.entries[n].testcase.parent_id = current_idx;
        if state.metadata.is_none() {
            state.metadata = Some(ProbabilityMetadata::new());
        }
        let ghost start = state.metadata->0;
        assert(starts_from(old(state).metadata, start));
        match &mut state.metadata {
            Some(prob_meta) => {
                prob_meta.needs_recalc = true;
                let len = prob_meta.map.len();
                let probability = if len > 0 {
                    prob_meta.total_probability.over(W::of_integer(len as u128))
                } else {
                    W::of_integer(1)
                };
                give(prob_meta, idx, probability);
                assert(prob_meta.map@[idx.0] == probability);
                assert(len > 0 ==> is_average(start, probability));
                assert(joined(start, *prob_meta, idx));
            },
            None => unreached(),
        }
        Ok(())
    }

    /// Whether the scores are to be recalculated before a testcase is scheduled.
    ///
    /// Don't spend more than 10% of the fuzzer time recalculating these stats - sure this feels
    /// like we're not using the neighbours prescient power much at the start of the campaign, but
    /// fuzzing campaigns last hours...
    pub fn recalc_due(&self, state: &State<W>, now: u128) -> (due: bool)
        requires
            state.metadata matches Some(metadata) ==> is_timely(metadata, now),
        ensures
            due == will_recalc(*state, now),
    {
        match &state.metadata {
            Some(metadata) => metadata.needs_recalc && state.neighbours.is_some() && now
                - metadata.last_recalc_time >= RECALC_INTERVAL * metadata.last_recalc_duration,
            None => false,
        }
    }

    /// Gets the next entry, for a given draw, unless nothing that has a probability is in the
    /// corpus.
    ///
    /// `now` is the time in milliseconds. Where the scores are recalculated, `finished` is told of
    /// it afterwards, and asked for the time and for how long the recalculation took.
    pub fn next_for_draw<C: FnOnce(RecalcReport) -> (u128, u128)>(
        &mut self,
        state: &mut State<W>,
        draw: u64,
        now: u128,
        finished: C,
    ) -> (result: Result<CorpusId, Error>)
        requires
            old(state).wf(),
            old(state).corpus.entries@.len() > 0 ==> can_schedule(*old(state), now),
            forall|report: RecalcReport| call_requires(finished, (report,)),
        ensures
            if old(state).corpus.entries@.len() == 0 {
                is_empty_error(result) && *final(state) == *old(state)
            } else {
                scheduled_if_held(*old(state), *final(state), draw, now, finished, result)
            },
    {
        if state.corpus.count() == 0 {
            return Err(Error::Empty("No entries in corpus".to_owned()));
        }
        if self.recalc_due(&*state, now) {
            let (time, duration) = match self.recalc_all_probabilities(state) {
                Ok(report) => finished(report),
                Err(_) => unreached(),
            };
            match &mut state.metadata {
                Some(meta) => {
                    meta.needs_recalc = false;
                    meta.last_recalc_time = time;
                    meta.last_recalc_duration = duration;
                },
                None => unreached(),
            }
        }
        let (walk, total) = match &state.metadata {
            Some(meta) => sampling::hold(
                &meta.map.walk(),
                &state.corpus.entries,
                meta.total_probability,
            ),
            None => unreached(),
        };
        let ghost order = state.metadata->0.map.order();
        let ghost entries = state.corpus.entries@;
        proof {
            let map = state.metadata->0.map@;
            state.metadata->0.map.lemma_order();
            sampling::lemma_held(order, entries);
            if will_recalc(*old(state), now) {
                assert(scoring::names(entries, entries[0].id.0));
                assert(map.dom().contains(entries[0].id.0));
            }
            if has_candidate(*state) {
                let key = choose|key: usize| #[trigger]
                    map.dom().contains(key) && scoring::names(entries, key);
                let i = choose|i: int| 0 <= i < order.len() && (#[trigger] order[i]).0 == key;
                assert(walk@.contains(order[i]));
            }
            if walk@.len() > 0 {
                assert(order.contains(walk@[0]));
                assert(map.dom().contains(walk@[0].0));
            }
        }
        if walk.len() == 0 {
            return Err(
                Error::IllegalState("No testcase of the corpus has a probability".to_owned()),
            );
        }
        let position = sampling::pick(&walk, total, draw);
        let ret = CorpusId(walk[position].0);
        state.corpus.current = Some(ret);
        proof {
            assert(order.contains(walk@[position as int]));
            let k = choose|k: int|
                0 <= k < entries.len() && (#[trigger] entries[k]).id.0 == ret.0;
            assert(model::ids_of(entries)[k] == ret);
        }
        Ok(ret)
    }

    /// Gets the next entry, unless nothing that has a probability is in the corpus.
    ///
    /// `now` is the time in milliseconds. Where the scores are recalculated, `finished` is told of
    /// it afterwards, and asked for the time and for how long the recalculation took.
    pub fn next<C: FnOnce(RecalcReport) -> (u128, u128)>(
        &mut self,
        state: &mut State<W>,
        rand: &mut StdRand,
        now: u128,
        finished: C,
    ) -> (result: Result<CorpusId, Error>)
        requires
            old(state).wf(),
            old(state).corpus.entries@.len() > 0 ==> can_schedule(*old(state), now),
            forall|report: RecalcReport| call_requires(finished, (report,)),
        ensures
            if old(state).corpus.entries@.len() == 0 {
                is_empty_error(result) && *final(state) == *old(state) && *final(rand) == *old(
                    rand,
                )
            } else {
                scheduled_at_random(
                    *old(state),
                    *final(state),
                    *old(rand),
                    *final(rand),
                    now,
                    finished,
                    result,
                )
            },
    {
        if state.corpus.count() == 0 {
            return self.next_for_draw(state, 0, now, finished);
        }
        let (draw, generator) = below(*rand, MAX_RAND);
        *rand = generator;
        assert(drawn(*old(rand), *rand, draw));
        self.next_for_draw(state, draw, now, finished)
    }

    /// Gets the next entry, and asks the control flow graph what is reachable first where the
    /// scores are recalculated.
    ///
    /// `now` is the time in milliseconds. Where the scores are recalculated, `finished` is told of
    /// it afterwards, and asked for the time and for how long the recalculation took. Where the
    /// recalculation is not possible with what the graph answers, or where nothing that has a
    /// probability is in the corpus, no entry is scheduled.
    pub fn next_with_graph<G: ControlFlowGraph, C: FnOnce(RecalcReport) -> (u128, u128)>(
        &mut self,
        state: &mut State<W>,
        graph: &G,
        rand: &mut StdRand,
        now: u128,
        finished: C,
    ) -> (result: Result<CorpusId, Error>)
        requires
            old(state).wf(),
            old(state).corpus.entries@.len() > 0 ==> {
                &&& old(state).metadata matches Some(metadata) && is_timely(metadata, now)
                &&& if will_recalc(*old(state), now) {
                    indexes_recorded(old(state).corpus.entries@)
                } else {
                    old(state).metadata->0.map@.dom().len() > 0
                }
            },
            forall|report: RecalcReport| call_requires(finished, (report,)),
        ensures
            if old(state).corpus.entries@.len() == 0 {
                is_empty_error(result) && *final(state) == *old(state) && *final(rand) == *old(
                    rand,
                )
            } else {
                exists|asked: State<W>|
                    {
                        &&& #[trigger] informed(*old(state), asked, *graph, now)
                        &&& if can_schedule(asked, now) {
                            scheduled_at_random(
                                asked,
                                *final(state),
                                *old(rand),
                                *final(rand),
                                now,
                                finished,
                                result,
                            )
                        } else {
                            &&& is_impossible_error(result)
                            &&& *final(state) == asked
                            &&& *final(rand) == *old(rand)
                        }
                    }
            },
    {
        if state.corpus.count() == 0 {
            return self.next(state, rand, now, finished);
        }
        let due = self.recalc_due(&*state, now);
        if due {
            self.refresh_reachabilities(state, graph);
        }
        let ghost asked = *state;
        assert(informed(*old(state), asked, *graph, now));
        if due && !self.can_recalc(&*state) {
            return Err(Error::IllegalState("No recalculation is possible".to_owned()));
        }
        self.next(state, rand, now, finished)
    }

    pub(crate) proof fn lemma_holds_nothing(self, other: Self)
        ensures
            self == other,
    {
    }
}

/// The number that the generator draws below a million is the very draw that a testcase is
/// scheduled for. The generator draws once, and not at all where the corpus is empty.
pub(crate) proof fn the_number_drawn_is_used<
    F: TestcaseScore<W>,
    W: Number,
    C: FnOnce(RecalcReport) -> (u128, u128),
>(
    scheduler: &mut ProbabilitySamplingScheduler<F, W>,
    state: &mut State<W>,
    rand: &mut StdRand,
    now: u128,
    finished: C,
    result: Result<CorpusId, Error>,
)
    requires
        operations::are_distinct(old(state).corpus.entries@),
        operations::is_wanted(*old(state), now) ==> operations::is_complete(*old(state)),
        call_ensures(
            ProbabilitySamplingScheduler::<F, W>::next::<C>,
            (scheduler, state, rand, now, finished),
            result,
        ),
    ensures
        old(state).corpus.entries@.len() == 0 ==> *final(rand) == *old(rand)
            && outcomes::schedules(*old(state), *final(state), 0, now, finished, result),
        old(state).corpus.entries@.len() > 0 ==> exists|number: u64|
            {
                &&& #[trigger] call_ensures(
                    below,
                    (*old(rand), 1_000_000u64),
                    (number, *final(rand)),
                )
                &&& number < 1_000_000
                &&& outcomes::schedules(
                    *old(state),
                    *final(state),
                    number,
                    now,
                    finished,
                    result,
                )
            },
{
    if old(state).corpus.entries@.len() > 0 {
        let number = choose|draw: u64|
            {
                &&& draw < MAX_RAND
                &&& #[trigger] drawn(*old(rand), *final(rand), draw)
                &&& scheduled_if_held(
                    *old(state),
                    *final(state),
                    draw,
                    now,
                    finished,
                    result,
                )
            };
        outcomes::lemma_schedules(*old(state), *final(state), number, now, finished, result);
        assert(call_ensures(below, (*old(rand), 1_000_000u64), (number, *final(rand))));
    }
}

/// Where a recalculation is wanted, the graph is asked first. A testcase is then scheduled from
/// what it answered, for the very number that the generator draws below a million. Where the
/// recalculation is not possible with the answers, that is an error, and nothing else changes.
pub(crate) proof fn the_graph_is_asked_first<
    F: TestcaseScore<W>,
    W: Number,
    G: ControlFlowGraph,
    C: FnOnce(RecalcReport) -> (u128, u128),
>(
    scheduler: &mut ProbabilitySamplingScheduler<F, W>,
    state: &mut State<W>,
    graph: G,
    rand: &mut StdRand,
    now: u128,
    finished: C,
    result: Result<CorpusId, Error>,
)
    requires
        operations::are_distinct(old(state).corpus.entries@),
        old(state).corpus.entries@.len() > 0 ==> {
            &&& old(state).metadata matches Some(metadata) && (metadata.needs_recalc ==> {
                &&& metadata.last_recalc_time <= now
                &&& 10 * metadata.last_recalc_duration <= u128::MAX
            })
            &&& operations::is_wanted(*old(state), now)
                || old(state).metadata->0.map@.dom().len() > 0
        },
        call_ensures(
            ProbabilitySamplingScheduler::<F, W>::next_with_graph::<G, C>,
            (scheduler, state, &graph, rand, now, finished),
            result,
        ),
    ensures
        old(state).corpus.entries@.len() == 0 ==> *final(rand) == *old(rand)
            && outcomes::schedules(*old(state), *final(state), 0, now, finished, result),
        old(state).corpus.entries@.len() > 0 ==> exists|asked: State<W>|
            {
                &&& if operations::is_wanted(*old(state), now) {
                    operations::answers(*old(state), asked, graph)
                } else {
                    asked == *old(state)
                }
                &&& #[trigger] operations::is_wanted(asked, now) == operations::is_wanted(
                    *old(state),
                    now,
                )
                &&& if operations::is_wanted(asked, now) && !operations::is_complete(asked) {
                    &&& result matches Err(Error::IllegalState(message)) && message@
                        == "No recalculation is possible"@
                    &&& *final(state) == asked
                    &&& *final(rand) == *old(rand)
                } else {
                    exists|number: u64|
                        {
                            &&& #[trigger] call_ensures(
                                below,
                                (*old(rand), 1_000_000u64),
                                (number, *final(rand)),
                            )
                            &&& number < 1_000_000
                            &&& outcomes::schedules(
                                asked,
                                *final(state),
                                number,
                                now,
                                finished,
                                result,
                            )
                        }
                }
            },
{
    if old(state).corpus.entries@.len() > 0 {
        let before = *old(state);
        let asked = choose|asked: State<W>|
            {
                &&& #[trigger] informed(before, asked, graph, now)
                &&& if can_schedule(asked, now) {
                    scheduled_at_random(
                        asked,
                        *final(state),
                        *old(rand),
                        *final(rand),
                        now,
                        finished,
                        result,
                    )
                } else {
                    &&& is_impossible_error(result)
                    &&& *final(state) == asked
                    &&& *final(rand) == *old(rand)
                }
            };
        assert(operations::is_wanted(asked, now) == operations::is_wanted(before, now));
        operations::lemma_complete(asked);
        assert forall|i: int, j: int| 0 <= i < j < asked.corpus.entries@.len() implies (
        #[trigger] asked.corpus.entries@[i]).id != (#[trigger] asked.corpus.entries@[j]).id by {
            assert(before.corpus.entries@[i].id != before.corpus.entries@[j].id);
        }
        if can_schedule(asked, now) {
            let number = choose|draw: u64|
                {
                    &&& draw < MAX_RAND
                    &&& #[trigger] drawn(*old(rand), *final(rand), draw)
                    &&& scheduled_if_held(asked, *final(state), draw, now, finished, result)
                };
            outcomes::lemma_schedules(asked, *final(state), number, now, finished, result);
            assert(call_ensures(below, (*old(rand), 1_000_000u64), (number, *final(rand))));
        }
    }
}

} // verus!
