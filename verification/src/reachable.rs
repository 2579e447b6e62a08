//! How often, and how closely, the testcases come near to the blocks that none of them covers.

use vstd::prelude::*;

use crate::collections;
use crate::collections::{IndexMap, IndexSet, TripleMap};
use crate::model;
use crate::model::{CorpusId, Entry, MapNeighboursFeedbackMetadata, Reachability};

verus! {

/// A reachability of a testcase, with the number of mutations of that testcase.
pub struct Visit {
    pub reachability: Reachability,
    pub mutations: usize,
}

/// How many mutations of a testcase were executed: none where nothing is recorded.
pub open spec fn mutations_of(entry: Entry) -> usize {
    match entry.testcase.num_mutations_executed {
        Some(mutations) => mutations,
        None => 0,
    }
}

/// The reachabilities of one testcase.
pub open spec fn entry_visits(entry: Entry) -> Seq<Visit> {
    Seq::new(
        entry.testcase.reachabilities@.len(),
        |j: int|
            Visit {
                reachability: entry.testcase.reachabilities@[j],
                mutations: mutations_of(entry),
            },
    )
}

/// The reachabilities of all testcases, one testcase after the other.
pub open spec fn visits(entries: Seq<Entry>) -> Seq<Visit>
    decreases entries.len(),
{
    if entries.len() == 0 {
        Seq::empty()
    } else {
        visits(entries.drop_last()) + entry_visits(entries.last())
    }
}

/// How often a reachability occurs.
pub open spec fn frequency(visits: Seq<Visit>, reachability: Reachability) -> nat
    decreases visits.len(),
{
    if visits.len() == 0 {
        0
    } else {
        frequency(visits.drop_last(), reachability) + if visits.last().reachability
            == reachability {
            1nat
        } else {
            0
        }
    }
}

/// The visit is one to a direct neighbour with that index.
pub open spec fn is_direct(visit: Visit, index: usize) -> bool {
    visit.reachability.depth == 1 && visit.reachability.index == index
}

/// The mutations of the testcases that have the index as a direct neighbour, summed up over the
/// visits.
pub open spec fn direct_mutations(visits: Seq<Visit>, index: usize) -> nat
    decreases visits.len(),
{
    if visits.len() == 0 {
        0
    } else {
        direct_mutations(visits.drop_last(), index) + if is_direct(visits.last(), index) {
            visits.last().mutations as nat
        } else {
            0
        }
    }
}

/// The index is a direct neighbour of some testcase.
pub open spec fn has_direct(visits: Seq<Visit>, index: usize) -> bool {
    exists|j: int| 0 <= j < visits.len() && is_direct(#[trigger] visits[j], index)
}

/// Some testcase comes near to the index.
pub open spec fn is_visited(visits: Seq<Visit>, index: usize) -> bool {
    exists|j: int| 0 <= j < visits.len() && (#[trigger] visits[j]).reachability.index == index
}

/// Some testcase comes as near to the index as that depth, and none nearer.
pub open spec fn is_least_depth(visits: Seq<Visit>, index: usize, depth: usize) -> bool {
    &&& exists|j: int|
        0 <= j < visits.len() && (#[trigger] visits[j]).reachability.index == index
            && visits[j].reachability.depth == depth
    &&& forall|j: int|
        0 <= j < visits.len() && (#[trigger] visits[j]).reachability.index == index ==> depth
            <= visits[j].reachability.depth
}

/// The tallies over the visits can be held in machine integers.
pub open spec fn tallies_fit(visits: Seq<Visit>) -> bool {
    &&& forall|r: Reachability| #[trigger] frequency(visits, r) <= usize::MAX
    &&& forall|index: usize| #[trigger] direct_mutations(visits, index) <= usize::MAX
}

/// The key under which a reachability is counted.
pub open spec fn key_of(r: Reachability) -> (usize, usize, usize) {
    (r.index, r.depth, r.direct_neighbour_ancestor_index)
}

/// What is counted over the corpus.
#[derive(Debug)]
pub struct ReachableBlocksResult {
    /// Number of corpus entries this reachability appears in, each counted as often as it lists the
    /// reachability
    pub frequency_for_reachability: TripleMap,
    /// Cumulative number of times corpus entries directly neighbouring (ie depth 1)
    /// this coverage map index have been mutated
    pub direct_neighbour_mutations_for_index: IndexMap,
    /// Lowest depth observed for the given index
    pub least_depth_for_index: IndexMap,
}

/// The map counts how often each reachability occurs.
pub open spec fn counts_frequencies(map: Map<(usize, usize, usize), usize>, visits: Seq<Visit>) -> bool {
    &&& forall|r: Reachability| #[trigger]
        map.dom().contains(key_of(r)) == (frequency(visits, r) > 0)
    &&& forall|r: Reachability| #[trigger]
        map.dom().contains(key_of(r)) ==> map[key_of(r)] == frequency(visits, r)
}

/// The map sums up the mutations next to each direct neighbour.
pub open spec fn sums_mutations(map: Map<usize, usize>, visits: Seq<Visit>) -> bool {
    &&& forall|index: usize| #[trigger] map.dom().contains(index) == has_direct(visits, index)
    &&& forall|index: usize| #[trigger]
        map.dom().contains(index) ==> map[index] == direct_mutations(visits, index)
}

/// The map gives the least depth at which each index is seen.
pub open spec fn gives_least_depths(map: Map<usize, usize>, visits: Seq<Visit>) -> bool {
    &&& forall|index: usize| #[trigger] map.dom().contains(index) == is_visited(visits, index)
    &&& forall|index: usize| #[trigger]
        map.dom().contains(index) ==> is_least_depth(visits, index, map[index])
}

impl ReachableBlocksResult {
    /// The maps hold the tallies over the visits, and nothing else.
    pub open spec fn tallies(&self, visits: Seq<Visit>) -> bool {
        &&& counts_frequencies(self.frequency_for_reachability@, visits)
        &&& sums_mutations(self.direct_neighbour_mutations_for_index@, visits)
        &&& gives_least_depths(self.least_depth_for_index@, visits)
    }

    pub(crate) fn new() -> (result: Self)
        ensures
            result.tallies(Seq::empty()),
    {
        ReachableBlocksResult {
            frequency_for_reachability: TripleMap::new(),
            direct_neighbour_mutations_for_index: IndexMap::new(),
            least_depth_for_index: IndexMap::new(),
        }
    }

    /// Counts one visit more, unless a count would not fit.
    fn record(&mut self, r: Reachability, mutations: usize, Ghost(before): Ghost<Seq<Visit>>) -> (
        fits: bool)
        requires
            old(self).tallies(before),
        ensures
            fits == ({
                let after = before.push(Visit { reachability: r, mutations });
                frequency(after, r) <= usize::MAX && direct_mutations(after, r.index)
                    <= usize::MAX
            }),
            fits ==> final(self).tallies(before.push(Visit { reachability: r, mutations })),
    {
        let counted = count(&mut self.frequency_for_reachability, r, mutations, Ghost(before));
        let summed = add_mutations(
            &mut self.direct_neighbour_mutations_for_index,
            r,
            mutations,
            Ghost(before),
        );
        lower_depth(&mut self.least_depth_for_index, r, mutations, Ghost(before));
        counted && summed
    }
}

/// Updates the frequency of a reachability, unless it would not fit.
fn count(map: &mut TripleMap, r: Reachability, mutations: usize, Ghost(before): Ghost<Seq<Visit>>) -> (
    fits: bool)
    requires
        counts_frequencies(old(map)@, before),
    ensures
        fits == (frequency(before.push(Visit { reachability: r, mutations }), r) <= usize::MAX),
        fits ==> counts_frequencies(
            final(map)@,
            before.push(Visit { reachability: r, mutations }),
        ),
{
    let ghost visit = Visit { reachability: r, mutations };
    let ghost after = before.push(visit);
    let key = (r.index, r.depth, r.direct_neighbour_ancestor_index);
    proof {
        assert(after.drop_last() =~= before);
        assert(after.last() == visit);
        assert(key == key_of(r));
        assert(map@.dom().contains(key_of(r)) == (frequency(before, r) > 0));
    }
    let counted = match map.get(key) {
        Some(counted) => counted,
        None => 0,
    };
    if counted == usize::MAX {
        return false;
    }
    let ghost old_map = map@;
    map.insert(key, counted + 1);
    assert forall|other: Reachability| #[trigger] map@.dom().contains(key_of(other)) implies map@[key_of(
        other,
    )] == frequency(after, other) by {
        if other != r {
            assert(key_of(other) != key_of(r));
            assert(old_map.dom().contains(key_of(other)));
        }
    }
    assert forall|other: Reachability| #[trigger] map@.dom().contains(key_of(other)) == (frequency(
        after,
        other,
    ) > 0) by {
        if other != r {
            assert(key_of(other) != key_of(r));
            assert(old_map.dom().contains(key_of(other)) == (frequency(before, other) > 0));
        }
    }
    true
}

/// Updates the number of mutations of direct neighbours (if appropriate), unless it would not
/// fit.
fn add_mutations(
    map: &mut IndexMap,
    r: Reachability,
    mutations: usize,
    Ghost(before): Ghost<Seq<Visit>>,
) -> (fits: bool)
    requires
        sums_mutations(old(map)@, before),
    ensures
        fits == (direct_mutations(before.push(Visit { reachability: r, mutations }), r.index)
            <= usize::MAX),
        fits ==> sums_mutations(final(map)@, before.push(Visit { reachability: r, mutations })),
{
    let ghost visit = Visit { reachability: r, mutations };
    let ghost after = before.push(visit);
    proof {
        assert(after.drop_last() =~= before);
        assert(after.last() == visit);
        assert(map@.dom().contains(r.index) == has_direct(before, r.index));
        if !has_direct(before, r.index) {
            lemma_no_direct(before, r.index);
        }
        assert forall|index: usize| #[trigger] has_direct(after, index) == (has_direct(
            before,
            index,
        ) || is_direct(visit, index)) by {
            lemma_direct_push(before, visit, index);
        }
    }
    let ghost old_map = map@;
    if r.depth == 1 {
        let summed = match map.get(r.index) {
            Some(summed) => summed,
            None => 0,
        };
        if usize::MAX - summed < mutations {
            return false;
        }
        map.insert(r.index, summed + mutations);
    }
    assert forall|index: usize| #[trigger] map@.dom().contains(index) == has_direct(after, index) by {
        assert(old_map.dom().contains(index) == has_direct(before, index));
    }
    assert forall|index: usize| #[trigger] map@.dom().contains(index) implies map@[index]
        == direct_mutations(after, index) by {
        assert(old_map.dom().contains(index) == has_direct(before, index));
    }
    true
}

/// Updates the least depth of an index (if we beat the previous depth).
fn lower_depth(
    map: &mut IndexMap,
    r: Reachability,
    mutations: usize,
    Ghost(before): Ghost<Seq<Visit>>,
)
    requires
        gives_least_depths(old(map)@, before),
    ensures
        gives_least_depths(final(map)@, before.push(Visit { reachability: r, mutations })),
{
    let ghost visit = Visit { reachability: r, mutations };
    let ghost after = before.push(visit);
    let ghost old_map = map@;
    match map.get(r.index) {
        Some(least) => {
            if r.depth < least {
                map.insert(r.index, r.depth);
            }
        },
        None => {
            map.insert(r.index, r.depth);
        },
    }
    assert forall|index: usize| #[trigger] map@.dom().contains(index) == is_visited(after, index) by {
        assert(old_map.dom().contains(index) == is_visited(before, index));
        lemma_visited_push(before, visit, index);
    }
    assert forall|index: usize| #[trigger] map@.dom().contains(index) implies is_least_depth(
        after,
        index,
        map@[index],
    ) by {
        assert(old_map.dom().contains(index) == is_visited(before, index));
        lemma_least_depth_push(before, visit, index);
        if old_map.dom().contains(index) {
            assert(is_least_depth(before, index, old_map[index]));
        }
    }
}

proof fn lemma_direct_push(before: Seq<Visit>, visit: Visit, index: usize)
    ensures
        has_direct(before.push(visit), index) == (has_direct(before, index) || is_direct(
            visit,
            index,
        )),
{
    let after = before.push(visit);
    if has_direct(before, index) {
        let j = choose|j: int| 0 <= j < before.len() && is_direct(#[trigger] before[j], index);
        assert(is_direct(after[j], index));
    }
    if is_direct(visit, index) {
        assert(is_direct(after[before.len() as int], index));
    }
}

proof fn lemma_visited_push(before: Seq<Visit>, visit: Visit, index: usize)
    ensures
        is_visited(before.push(visit), index) == (is_visited(before, index)
            || visit.reachability.index == index),
{
    let after = before.push(visit);
    if is_visited(before, index) {
        let j = choose|j: int|
            0 <= j < before.len() && (#[trigger] before[j]).reachability.index == index;
        assert(after[j].reachability.index == index);
    }
    if visit.reachability.index == index {
        assert(after[before.len() as int].reachability.index == index);
    }
}

proof fn lemma_least_depth_push(before: Seq<Visit>, visit: Visit, index: usize)
    ensures
        visit.reachability.index == index && !is_visited(before, index) ==> is_least_depth(
            before.push(visit),
            index,
            visit.reachability.depth,
        ),
        forall|least: usize| #[trigger]
            is_least_depth(before, index, least) ==> is_least_depth(
                before.push(visit),
                index,
                if visit.reachability.index == index && visit.reachability.depth < least {
                    visit.reachability.depth
                } else {
                    least
                },
            ),
{
    let after = before.push(visit);
    assert(after[before.len() as int] == visit);
    assert forall|least: usize| #[trigger] is_least_depth(before, index, least) implies (
    is_least_depth(
        after,
        index,
        if visit.reachability.index == index && visit.reachability.depth < least {
            visit.reachability.depth
        } else {
            least
        },
    )) by {
        let j = choose|j: int|
            0 <= j < before.len() && (#[trigger] before[j]).reachability.index == index
                && before[j].reachability.depth == least;
        assert(after[j] == before[j]);
        assert forall|k: int|
            0 <= k < after.len() && (#[trigger] after[k]).reachability.index == index && k
                < before.len() implies least <= after[k].reachability.depth by {
            assert(after[k] == before[k]);
        }
    }
    if visit.reachability.index == index && !is_visited(before, index) {
        assert forall|k: int|
            0 <= k < after.len() && (#[trigger] after[k]).reachability.index
                == index implies visit.reachability.depth <= after[k].reachability.depth by {
            if k < before.len() {
                assert(after[k] == before[k]);
            }
        }
    }
}

proof fn lemma_no_direct(visits: Seq<Visit>, index: usize)
    requires
        !has_direct(visits, index),
    ensures
        direct_mutations(visits, index) == 0,
    decreases visits.len(),
{
    if visits.len() > 0 {
        lemma_direct_push(visits.drop_last(), visits.last(), index);
        assert(visits.drop_last().push(visits.last()) =~= visits);
        lemma_no_direct(visits.drop_last(), index);
    }
}

proof fn lemma_visits_prefix(entries: Seq<Entry>, n: int)
    requires
        0 <= n <= entries.len(),
    ensures
        visits(entries.take(n)).len() <= visits(entries).len(),
        visits(entries).take(visits(entries.take(n)).len() as int) == visits(entries.take(n)),
    decreases entries.len(),
{
    if n == entries.len() {
        assert(entries.take(n) =~= entries);
        assert(visits(entries).take(visits(entries).len() as int) =~= visits(entries));
    } else {
        let shorter = entries.drop_last();
        lemma_visits_prefix(shorter, n);
        assert(shorter.take(n) =~= entries.take(n));
        let k = visits(entries.take(n)).len() as int;
        assert(visits(entries).take(k) =~= visits(shorter).take(k));
    }
}

proof fn lemma_visits_step(entries: Seq<Entry>, n: int)
    requires
        0 <= n < entries.len(),
    ensures
        visits(entries.take(n + 1)) == visits(entries.take(n)) + entry_visits(entries[n]),
{
    assert(entries.take(n + 1).drop_last() =~= entries.take(n));
    assert(entries.take(n + 1).last() == entries[n]);
}

proof fn lemma_tallies_grow(vs: Seq<Visit>, k: int, r: Reachability, index: usize)
    requires
        0 <= k <= vs.len(),
    ensures
        frequency(vs.take(k), r) <= frequency(vs, r),
        direct_mutations(vs.take(k), index) <= direct_mutations(vs, index),
    decreases vs.len(),
{
    if k == vs.len() {
        assert(vs.take(k) =~= vs);
    } else {
        assert(vs.drop_last().take(k) =~= vs.take(k));
        lemma_tallies_grow(vs.drop_last(), k, r, index);
    }
}

proof fn lemma_fit_push(before: Seq<Visit>, visit: Visit)
    requires
        tallies_fit(before),
    ensures
        tallies_fit(before.push(visit)) <==> {
            &&& frequency(before.push(visit), visit.reachability) <= usize::MAX
            &&& direct_mutations(before.push(visit), visit.reachability.index) <= usize::MAX
        },
{
    let after = before.push(visit);
    assert(after.drop_last() =~= before);
    if frequency(after, visit.reachability) <= usize::MAX && direct_mutations(
        after,
        visit.reachability.index,
    ) <= usize::MAX {
        assert forall|r: Reachability| #[trigger] frequency(after, r) <= usize::MAX by {
            assert(frequency(before, r) <= usize::MAX);
        }
        assert forall|index: usize| #[trigger] direct_mutations(after, index) <= usize::MAX by {
            assert(direct_mutations(before, index) <= usize::MAX);
        }
    }
}

/// A reachability of a testcase is among the visits.
pub(crate) proof fn lemma_is_visited(entries: Seq<Entry>, n: int, j: int)
    requires
        0 <= n < entries.len(),
        0 <= j < entries[n].testcase.reachabilities@.len(),
    ensures
        exists|v: int|
            0 <= v < visits(entries).len() && (
            #[trigger] visits(entries)[v]).reachability
                == entries[n].testcase.reachabilities@[j],
    decreases entries.len(),
{
    let all = visits(entries);
    let before = visits(entries.drop_last());
    let own = entry_visits(entries.last());
    if n == entries.len() - 1 {
        assert(all[before.len() + j] == own[j]);
    } else {
        lemma_is_visited(entries.drop_last(), n, j);
        let v = choose|v: int|
            0 <= v < before.len() && (#[trigger] before[v]).reachability
                == entries[n].testcase.reachabilities@[j];
        assert(all[v] == before[v]);
    }
}

/// What occurs is counted.
pub(crate) proof fn lemma_frequency_positive(visits: Seq<Visit>, v: int)
    requires
        0 <= v < visits.len(),
    ensures
        frequency(visits, visits[v].reachability) > 0,
    decreases visits.len(),
{
    if v < visits.len() - 1 {
        lemma_frequency_positive(visits.drop_last(), v);
    }
}

/// A visit is a reachability of some testcase.
pub(crate) proof fn lemma_visit_source(entries: Seq<Entry>, v: int)
    requires
        0 <= v < visits(entries).len(),
    ensures
        exists|i: int, j: int|
            0 <= i < entries.len() && 0 <= j < entries[i].testcase.reachabilities@.len() && (
            #[trigger] entries[i].testcase.reachabilities@[j]) == visits(
                entries,
            )[v].reachability,
    decreases entries.len(),
{
    let before = visits(entries.drop_last());
    let own = entry_visits(entries.last());
    let last = entries.len() - 1;
    if v < before.len() {
        lemma_visit_source(entries.drop_last(), v);
        let (i, j) = choose|i: int, j: int|
            0 <= i < last && 0 <= j < entries.drop_last()[i].testcase.reachabilities@.len() && (
            #[trigger] entries.drop_last()[i].testcase.reachabilities@[j])
                == before[v].reachability;
        assert(entries[i].testcase.reachabilities@[j] == before[v].reachability);
    } else {
        let j = v - before.len();
        assert(own[j].reachability == entries[last].testcase.reachabilities@[j]);
    }
}

/// Counts over the corpus, unless a count does not fit.
pub fn tally(entries: &Vec<Entry>) -> (result: Option<ReachableBlocksResult>)
    ensures
        result is Some <==> tallies_fit(visits(entries@)),
        result matches Some(r) ==> r.tallies(visits(entries@)),
{
    let mut result = ReachableBlocksResult::new();
    assert(visits(entries@.take(0)) =~= Seq::empty());
    for n in 0..entries.len()
        invariant
            result.tallies(visits(entries@.take(n as int))),
            tallies_fit(visits(entries@.take(n as int))),
    {
        let ghost done = visits(entries@.take(n as int));
        let ghost own = entry_visits(entries@[n as int]);
        let mutations: usize = match entries[n].testcase.num_mutations_executed {
            Some(mutations) => mutations,
            None => 0,
        };
        let count = entries[n].testcase.reachabilities.len();
        proof {
            lemma_visits_step(entries@, n as int);
            assert(done + own.take(0) =~= done);
        }
        for j in 0..count
            invariant
                n < entries@.len(),
                count == entries@[n as int].testcase.reachabilities@.len(),
                mutations == mutations_of(entries@[n as int]),
                done == visits(entries@.take(n as int)),
                own == entry_visits(entries@[n as int]),
                visits(entries@.take(n + 1)) == done + own,
                result.tallies(done + own.take(j as int)),
                tallies_fit(done + own.take(j as int)),
        {
            let r = entries[n].testcase.reachabilities[j];
            let ghost before = done + own.take(j as int);
            let ghost after = done + own.take(j + 1);
            let fits = result.record(r, mutations, Ghost(before));
            proof {
                assert(before.push(Visit { reachability: r, mutations }) =~= after);
                lemma_fit_push(before, Visit { reachability: r, mutations });
            }
            if !fits {
                proof {
                    let all = visits(entries@);
                    lemma_visits_prefix(entries@, n + 1);
                    let k = after.len() as int;
                    assert(all.take(k) =~= all.take((done + own).len() as int).take(k));
                    assert((done + own).take(k) =~= after);
                    lemma_tallies_grow(all, k, r, r.index);
                }
                return None;
            }
        }
        assert(own.take(count as int) =~= own);
    }
    assert(entries@.take(entries@.len() as int) =~= entries@);
    Some(result)
}

/// The indexes that a testcase was the first to cover.
pub open spec fn novelties_of(entry: Entry) -> Set<usize> {
    match entry.testcase.novelties {
        Some(novelties) => novelties@.to_set(),
        None => Set::empty(),
    }
}

/// The indexes that a testcase comes near to.
pub open spec fn indexes_near(entry: Entry) -> Set<usize> {
    Set::new(
        |index: usize|
            exists|j: int|
                0 <= j < entry.testcase.reachabilities@.len() && (
                #[trigger] entry.testcase.reachabilities@[j]).index == index,
    )
}

/// The reachable blocks after the entries were gone through in order: each one that is not known
/// takes away what it was the first to cover, and then adds what it comes near to.
pub open spec fn reachable_after(
    blocks: Set<usize>,
    entries: Seq<Entry>,
    known: Seq<CorpusId>,
) -> Set<usize>
    decreases entries.len(),
{
    if entries.len() == 0 {
        blocks
    } else {
        let before = reachable_after(blocks, entries.drop_last(), known);
        let entry = entries.last();
        if known.contains(entry.id) {
            before
        } else {
            before.difference(novelties_of(entry)).union(indexes_near(entry))
        }
    }
}

/// The novelties of every testcase that is not known are recorded.
pub open spec fn novelties_recorded(entries: Seq<Entry>, known: Seq<CorpusId>) -> bool {
    forall|i: int|
        0 <= i < entries.len() && !known.contains((#[trigger] entries[i]).id)
            ==> entries[i].testcase.novelties is Some
}

/// `after` is what `before` becomes when the entries are gone through.
pub open spec fn neighbours_updated(
    before: MapNeighboursFeedbackMetadata,
    after: MapNeighboursFeedbackMetadata,
    entries: Seq<Entry>,
) -> bool {
    &&& after.reachable_blocks@ == reachable_after(
        before.reachable_blocks@,
        entries,
        before.corpus_ids_present_at_recalc@,
    )
    &&& after.corpus_ids_present_at_recalc@ == model::ids_of(entries)
    &&& after.covered_blocks == before.covered_blocks
}

fn contains_id(ids: &Vec<CorpusId>, id: CorpusId) -> (found: bool)
    ensures
        found == ids@.contains(id),
{
    for n in 0..ids.len()
        invariant
            forall|i: int| 0 <= i < n ==> ids@[i] != id,
    {
        if ids[n] == id {
            return true;
        }
    }
    false
}

/// Whether the novelties of every testcase that is not known are recorded.
pub fn are_novelties_recorded(entries: &Vec<Entry>, known: &Vec<CorpusId>) -> (recorded: bool)
    ensures
        recorded == novelties_recorded(entries@, known@),
{
    for n in 0..entries.len()
        invariant
            novelties_recorded(entries@.take(n as int), known@),
    {
        if entries[n].testcase.novelties.is_none() && !contains_id(known, entries[n].id) {
            return false;
        }
        assert forall|i: int|
            0 <= i < n + 1 && !known@.contains(
                (#[trigger] entries@.take(n + 1)[i]).id,
            ) implies entries@.take(n + 1)[i].testcase.novelties is Some by {
            if i < n {
                assert(entries@.take(n as int)[i] == entries@.take(n + 1)[i]);
            }
        }
    }
    assert(entries@.take(entries@.len() as int) =~= entries@);
    true
}

/// Takes the novelties of a testcase out of the reachable blocks, and adds what it comes near to.
fn enter(blocks: &mut IndexSet, entry: &Entry)
    ensures
        final(blocks)@ == old(blocks)@.difference(novelties_of(*entry)).union(
            indexes_near(*entry),
        ),
{
    let ghost start = blocks@;
    match &entry.testcase.novelties {
        Some(novelties) => {
            assert(novelties@.take(0).to_set() =~= Set::empty());
            for n in 0..novelties.len()
                invariant
                    blocks@ == start.difference(novelties@.take(n as int).to_set()),
            {
                blocks.remove(novelties[n]);
                proof {
                    collections::lemma_to_set_take(novelties@, n as int);
                }
                assert(blocks@ =~= start.difference(novelties@.take(n + 1).to_set()));
            }
            assert(novelties@.take(novelties@.len() as int) =~= novelties@);
        },
        None => {},
    }
    let ghost without = blocks@;
    assert(without =~= start.difference(novelties_of(*entry)));
    for n in 0..entry.testcase.reachabilities.len()
        invariant
            forall|index: usize| #[trigger]
                blocks@.contains(index) == (without.contains(index) || exists|j: int|
                    0 <= j < n && (#[trigger] entry.testcase.reachabilities@[j]).index == index),
    {
        let ghost before = blocks@;
        let index = entry.testcase.reachabilities[n].index;
        blocks.insert(index);
        assert forall|i: usize| #[trigger] blocks@.contains(i) == (without.contains(i) || exists|j: int|
            0 <= j < n + 1 && (#[trigger] entry.testcase.reachabilities@[j]).index == i) by {
            assert(before.contains(i) == (without.contains(i) || exists|j: int|
                0 <= j < n && (#[trigger] entry.testcase.reachabilities@[j]).index == i));
            if i == index {
                assert(entry.testcase.reachabilities@[n as int].index == i);
            }
        }
    }
    assert(blocks@ =~= without.union(indexes_near(*entry)));
}

/// Goes through the entries that were not there before.
pub fn update_neighbours(neighbours: &mut MapNeighboursFeedbackMetadata, entries: &Vec<Entry>)
    requires
        novelties_recorded(entries@, old(neighbours).corpus_ids_present_at_recalc@),
    ensures
        neighbours_updated(*old(neighbours), *final(neighbours), entries@),
{
    let ghost start = neighbours.reachable_blocks@;
    let ghost known = neighbours.corpus_ids_present_at_recalc@;
    let mut ids: Vec<CorpusId> = Vec::new();
    for n in 0..entries.len()
        invariant
            neighbours.corpus_ids_present_at_recalc@ == known,
            neighbours.covered_blocks == old(neighbours).covered_blocks,
            neighbours.reachable_blocks@ == reachable_after(
                start,
                entries@.take(n as int),
                known,
            ),
            ids@ == model::ids_of(entries@).take(n as int),
    {
        let id = entries[n].id;
        ids.push(id);
        if !contains_id(&neighbours.corpus_ids_present_at_recalc, id) {
            enter(&mut neighbours.reachable_blocks, &entries[n]);
        }
        proof {
            assert(entries@.take(n + 1).drop_last() =~= entries@.take(n as int));
            assert(entries@.take(n + 1).last() == entries@[n as int]);
            assert(ids@ =~= model::ids_of(entries@).take(n + 1));
        }
    }
    assert(entries@.take(entries@.len() as int) =~= entries@);
    assert(ids@ =~= model::ids_of(entries@));
    neighbours.corpus_ids_present_at_recalc = ids;
}

} // verus!
