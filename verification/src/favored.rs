//! The testcases that are worth keeping: the cheapest ones that come near to everything.

use vstd::prelude::*;

use crate::collections;
use crate::collections::{IndexMap, IndexSet};
use crate::model::{CorpusId, Entry};
use crate::ordering;
use crate::reachable;
use crate::reachable::Visit;

verus! {

/// The indexes of the coverage map that a testcase covers.
pub open spec fn covered_by(entry: Entry) -> Set<usize> {
    match entry.testcase.indexes {
        Some(indexes) => indexes@.to_set(),
        None => Set::empty(),
    }
}

/// The indexes that a testcase comes as near to as any testcase does.
pub open spec fn nearest_to(entry: Entry, visits: Seq<Visit>) -> Set<usize> {
    Set::new(
        |index: usize|
            exists|j: int|
                0 <= j < entry.testcase.reachabilities@.len() && (
                #[trigger] entry.testcase.reachabilities@[j]).index == index
                    && reachable::is_least_depth(
                    visits,
                    index,
                    entry.testcase.reachabilities@[j].depth,
                ),
    )
}

/// Where the choice of favored testcases has got to.
#[verifier::ext_equal]
pub struct Selection {
    /// The indexes that a testcase gone through comes as near to as any does.
    pub filled: Set<usize>,
    /// The indexes that a testcase gone through covers.
    pub edges: Set<usize>,
    /// The testcases that came nearest to some index before any other did.
    pub by_reach: Set<usize>,
    /// The other testcases that covered some index before any other did.
    pub by_coverage: Set<usize>,
}

/// The choice after the testcases were gone through in the given order.
pub open spec fn selection(entries: Seq<Entry>, visits: Seq<Visit>, order: Seq<usize>) -> Selection
    decreases order.len(),
{
    if order.len() == 0 {
        Selection {
            filled: Set::empty(),
            edges: Set::empty(),
            by_reach: Set::empty(),
            by_coverage: Set::empty(),
        }
    } else {
        let before = selection(entries, visits, order.drop_last());
        let entry = entries[order.last() as int];
        let near = nearest_to(entry, visits);
        let covered = covered_by(entry);
        let reaches = !near.subset_of(before.filled);
        let covers = !covered.subset_of(before.edges);
        Selection {
            filled: before.filled.union(near),
            edges: before.edges.union(covered),
            by_reach: if reaches {
                before.by_reach.insert(entry.id.0)
            } else {
                before.by_reach
            },
            by_coverage: if !reaches && covers {
                before.by_coverage.insert(entry.id.0)
            } else {
                before.by_coverage
            },
        }
    }
}

/// What a recalculation tells of the corpus.
#[derive(Debug)]
pub struct RecalcReport {
    /// How many testcases there are.
    pub corpus_size: usize,
    /// The testcases that come as near as possible to the blocks that none covers.
    pub reachability_favored_ids: IndexSet,
    /// The testcases that are favored for what they cover alone.
    pub coverage_favored_ids: IndexSet,
    /// What the favored testcases cover.
    pub favored_edges: IndexSet,
    /// What some testcase covers, but no favored one.
    pub skipped: Vec<usize>,
}

impl RecalcReport {
    /// The report tells the choice of favored testcases.
    pub open spec fn tells(&self, choice: Selection) -> bool {
        &&& self.reachability_favored_ids@ == choice.by_reach
        &&& self.coverage_favored_ids@ == choice.by_coverage
        &&& self.favored_edges@ == choice.edges
        &&& self.skipped@.len() == 0
    }

    /// Whether a testcase comes as near as possible to a block that none covers.
    pub fn is_reachability_favored(&self, id: CorpusId) -> (favored: bool)
        ensures
            favored == self.reachability_favored_ids@.contains(id.0),
    {
        self.reachability_favored_ids.contains(id.0)
    }

    /// Whether a testcase is favored for what it covers alone.
    pub fn is_coverage_favored(&self, id: CorpusId) -> (favored: bool)
        ensures
            favored == self.coverage_favored_ids@.contains(id.0),
    {
        self.coverage_favored_ids.contains(id.0)
    }

    /// How many testcases are favored for what they come near to, how many for what they cover
    /// alone, and how many indexes they cover.
    pub fn counts(&self) -> (counts: (usize, usize, usize))
        ensures
            counts.0 == self.reachability_favored_ids@.len(),
            counts.1 == self.coverage_favored_ids@.len(),
            counts.2 == self.favored_edges@.len(),
    {
        (
            self.reachability_favored_ids.len(),
            self.coverage_favored_ids.len(),
            self.favored_edges.len(),
        )
    }
}

/// Makes sure that we have entries that get as close as possible to all indexes: fills in what a
/// testcase comes nearest to, and tells whether any of it is new.
fn fill_nearest(filled: &mut IndexSet, entry: &Entry, least: &IndexMap, Ghost(visits): Ghost<Seq<Visit>>) -> (
    new: bool)
    requires
        reachable::gives_least_depths(least@, visits),
        forall|j: int|
            0 <= j < entry.testcase.reachabilities@.len() ==> reachable::is_visited(
                visits,
                (#[trigger] entry.testcase.reachabilities@[j]).index,
            ),
    ensures
        final(filled)@ == old(filled)@.union(nearest_to(*entry, visits)),
        new == !nearest_to(*entry, visits).subset_of(old(filled)@),
{
    let ghost start = filled@;
    let ghost list = entry.testcase.reachabilities@;
    let mut new = false;
    let ghost mut witness: usize = 0;
    for n in 0..entry.testcase.reachabilities.len()
        invariant
            list == entry.testcase.reachabilities@,
            reachable::gives_least_depths(least@, visits),
            forall|j: int|
                0 <= j < list.len() ==> reachable::is_visited(visits, (#[trigger] list[j]).index),
            forall|index: usize| #[trigger]
                filled@.contains(index) == (start.contains(index) || exists|j: int|
                    0 <= j < n && (#[trigger] list[j]).index == index && reachable::is_least_depth(
                        visits,
                        index,
                        list[j].depth,
                    )),
            new ==> filled@.contains(witness) && !start.contains(witness),
            !new ==> filled@ == start,
    {
        let ghost before = filled@;
        let r = entry.testcase.reachabilities[n];
        let ghost closest = reachable::is_least_depth(visits, r.index, r.depth);
        proof {
            assert(list[n as int] == r);
            assert(least@.dom().contains(r.index) == reachable::is_visited(visits, r.index));
            assert(reachable::is_least_depth(visits, r.index, least@[r.index]));
            lemma_least_depth_unique(visits, r.index, least@[r.index], r.depth);
        }
        match least.get(r.index) {
            Some(depth) => {
                if r.depth == depth {
                    let inserted = filled.insert(r.index);
                    if inserted {
                        new = true;
                        proof {
                            witness = r.index;
                        }
                    }
                    assert(!inserted ==> filled@ =~= before);
                }
            },
            None => {},
        }
        assert forall|index: usize| #[trigger] filled@.contains(index) == (start.contains(index)
            || exists|j: int|
            0 <= j < n + 1 && (#[trigger] list[j]).index == index && reachable::is_least_depth(
                visits,
                index,
                list[j].depth,
            )) by {
            assert(before.contains(index) == (start.contains(index) || exists|j: int|
                0 <= j < n && (#[trigger] list[j]).index == index && reachable::is_least_depth(
                    visits,
                    index,
                    list[j].depth,
                )));
            if closest && index == r.index {
                assert(list[n as int].index == index);
            }
        }
    }
    proof {
        assert(filled@ =~= start.union(nearest_to(*entry, visits)));
        if new {
            assert(nearest_to(*entry, visits).contains(witness));
        } else {
            assert forall|index: usize| nearest_to(*entry, visits).contains(index) implies start.contains(
                index,
            ) by {
                assert(filled@.contains(index));
            }
        }
    }
    new
}

proof fn lemma_least_depth_unique(visits: Seq<Visit>, index: usize, a: usize, b: usize)
    requires
        reachable::is_least_depth(visits, index, a),
    ensures
        reachable::is_least_depth(visits, index, b) <==> a == b,
{
    if reachable::is_least_depth(visits, index, b) {
        let i = choose|i: int|
            0 <= i < visits.len() && (#[trigger] visits[i]).reachability.index == index
                && visits[i].reachability.depth == a;
        let j = choose|j: int|
            0 <= j < visits.len() && (#[trigger] visits[j]).reachability.index == index
                && visits[j].reachability.depth == b;
        assert(b <= visits[i].reachability.depth);
        assert(a <= visits[j].reachability.depth);
    }
}

/// Adds what a testcase covers, and tells whether any of it is new.
fn fill_covered(edges: &mut IndexSet, entry: &Entry) -> (new: bool)
    ensures
        final(edges)@ == old(edges)@.union(covered_by(*entry)),
        new == !covered_by(*entry).subset_of(old(edges)@),
{
    let ghost start = edges@;
    let mut new = false;
    let ghost mut witness: usize = 0;
    match &entry.testcase.indexes {
        Some(indexes) => {
            assert(indexes@.take(0).to_set() =~= Set::empty());
            assert(start.union(Set::empty()) =~= start);
            for n in 0..indexes.len()
                invariant
                    edges@ == start.union(indexes@.take(n as int).to_set()),
                    new ==> indexes@.contains(witness) && !start.contains(witness),
                    !new ==> edges@ == start,
            {
                let ghost before = edges@;
                let edge = indexes[n];
                let inserted = edges.insert(edge);
                if inserted {
                    new = true;
                    proof {
                        witness = edge;
                        assert(indexes@[n as int] == edge);
                    }
                }
                proof {
                    collections::lemma_to_set_take(indexes@, n as int);
                    assert(edges@ =~= start.union(indexes@.take(n + 1).to_set()));
                    assert(!inserted ==> edges@ =~= before);
                }
            }
            proof {
                assert(indexes@.take(indexes@.len() as int) =~= indexes@);
                if new {
                    assert(covered_by(*entry).contains(witness));
                } else {
                    assert forall|edge: usize| covered_by(*entry).contains(edge) implies start.contains(
                        edge,
                    ) by {
                        assert(edges@.contains(edge));
                    }
                }
            }
        },
        None => {
            assert(start.union(Set::empty()) =~= start);
        },
    }
    new
}

/// Greedily selects a minimal subset of testcases that cover all neighbours (based on runtime).
pub fn select_favored(
    entries: &Vec<Entry>,
    order: &Vec<usize>,
    least: &IndexMap,
) -> (report: RecalcReport)
    requires
        ordering::is_permutation(order@, entries@.len()),
        reachable::gives_least_depths(least@, reachable::visits(entries@)),
    ensures
        report.corpus_size == entries@.len(),
        report.tells(selection(entries@, reachable::visits(entries@), order@)),
{
    let ghost visits = reachable::visits(entries@);
    let mut filled = IndexSet::new();
    let mut by_reach = IndexSet::new();
    let mut by_coverage = IndexSet::new();
    let mut edges = IndexSet::new();
    let mut all_covered = IndexSet::new();
    for n in 0..order.len()
        invariant
            ordering::is_permutation(order@, entries@.len()),
            visits == reachable::visits(entries@),
            reachable::gives_least_depths(least@, visits),
            ({
                let choice = selection(entries@, visits, order@.take(n as int));
                &&& filled@ == choice.filled
                &&& edges@ == choice.edges
                &&& by_reach@ == choice.by_reach
                &&& by_coverage@ == choice.by_coverage
                &&& all_covered@ == choice.edges
            }),
    {
        let position = order[n];
        let entry = &entries[position];
        proof {
            assert(order@.take(n + 1).drop_last() =~= order@.take(n as int));
            assert(order@.take(n + 1).last() == position);
            assert forall|j: int| 0 <= j < entry.testcase.reachabilities@.len() implies reachable::is_visited(
                visits,
                (#[trigger] entry.testcase.reachabilities@[j]).index,
            ) by {
                reachable::lemma_is_visited(entries@, position as int, j);
            }
        }
        fill_covered(&mut all_covered, entry);
        let reaches = fill_nearest(&mut filled, entry, least, Ghost(visits));
        let covers = fill_covered(&mut edges, entry);
        if reaches {
            by_reach.insert(entry.id.0);
        } else if covers {
            by_coverage.insert(entry.id.0);
        }
    }
    assert(order@.take(order@.len() as int) =~= order@);
    let skipped = all_covered.difference(&edges);
    proof {
        if skipped@.len() > 0 {
            assert(skipped@.contains(skipped@[0]));
        }
    }
    RecalcReport {
        corpus_size: entries.len(),
        reachability_favored_ids: by_reach,
        coverage_favored_ids: by_coverage,
        favored_edges: edges,
        skipped,
    }
}

} // verus!
