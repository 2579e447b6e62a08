//! What the scheduler works on: the corpus, and the metadata that goes with it.

use vstd::prelude::*;

use crate::collections::IndexSet;
use crate::numbers::Number;
use crate::table::Table;

verus! {

/// Names a testcase of the corpus.
#[derive(Clone, Copy, Debug, PartialEq, Eq, Hash, PartialOrd, Ord, Structural)]
pub struct CorpusId(pub usize);

/// Why an operation of the scheduler failed.
#[derive(Debug, PartialEq, Eq)]
pub enum Error {
    /// There is nothing to choose from.
    Empty(String),
    /// The corpus holds no testcase of that name.
    KeyNotFound(CorpusId),
    /// The state lacks what the operation reads.
    IllegalState(String),
    /// A testcase could not be scored.
    Unknown(String),
}

/// A block that no testcase covers, seen from the code that a testcase covers.
#[derive(Clone, Copy, Debug, PartialEq, Eq, Hash, Structural)]
pub struct Reachability {
    /// The index of the block in the coverage map.
    pub index: usize,
    /// How many edges lie between the covered code and the block.
    pub depth: usize,
    /// The index of the block at depth 1 through which the block is reached.
    pub direct_neighbour_ancestor_index: usize,
}

/// What is known of an input of the corpus.
#[derive(Debug)]
pub struct Testcase {
    /// The testcase that this one was made from.
    pub parent_id: Option<CorpusId>,
    /// The length of the input.
    pub len: usize,
    /// How long the input took to execute, in nanoseconds.
    pub exec_time: Option<u128>,
    /// The indexes of the coverage map that the input covers.
    pub indexes: Option<Vec<usize>>,
    /// The indexes of the coverage map that the input was the first to cover.
    pub novelties: Option<Vec<usize>>,
    /// How many mutations of the input were executed.
    pub num_mutations_executed: Option<usize>,
    /// What the control flow graph gives as reachable from the covered indexes.
    pub reachabilities: Vec<Reachability>,
}

/// A testcase under its name.
#[derive(Debug)]
pub struct Entry {
    /// The name.
    pub id: CorpusId,
    /// The testcase.
    pub testcase: Testcase,
}

/// The testcases, in the order in which they are listed.
#[derive(Debug)]
pub struct Corpus {
    /// The testcases.
    pub entries: Vec<Entry>,
    /// The testcase that was scheduled last.
    pub current: Option<CorpusId>,
}

/// The names of the entries are distinct.
pub open spec fn distinct_ids(entries: Seq<Entry>) -> bool {
    forall|i: int, j: int|
        0 <= i < j < entries.len() ==> (#[trigger] entries[i]).id != (#[trigger] entries[j]).id
}

/// The names of the entries, in order.
pub open spec fn ids_of(entries: Seq<Entry>) -> Seq<CorpusId> {
    Seq::new(entries.len(), |i: int| entries[i].id)
}

impl Corpus {
    /// The names of the testcases are distinct.
    pub open spec fn wf(&self) -> bool {
        distinct_ids(self.entries@)
    }

    /// The corpus holds a testcase of that name.
    pub open spec fn holds(&self, id: CorpusId) -> bool {
        ids_of(self.entries@).contains(id)
    }

    /// A corpus of the given testcases, none of which is scheduled yet, unless a name occurs
    /// twice.
    pub fn new(entries: Vec<Entry>) -> (corpus: Option<Corpus>)
        ensures
            corpus is Some <==> distinct_ids(entries@),
            corpus matches Some(c) ==> c.wf() && c.entries == entries && c.current is None,
    {
        let mut seen = IndexSet::new();
        for n in 0..entries.len()
            invariant
                forall|i: int, j: int|
                    0 <= i < j < n ==> (#[trigger] entries@[i]).id != (#[trigger] entries@[j]).id,
                forall|i: int| 0 <= i < n ==> seen@.contains((#[trigger] entries@[i]).id.0),
                forall|key: usize| #[trigger]
                    seen@.contains(key) ==> exists|i: int|
                        0 <= i < n && (#[trigger] entries@[i]).id.0 == key,
        {
            let ghost before = seen@;
            if !seen.insert(entries[n].id.0) {
                return None;
            }
            assert forall|key: usize| #[trigger] seen@.contains(key) implies exists|i: int|
                0 <= i < n + 1 && (#[trigger] entries@[i]).id.0 == key by {
                if before.contains(key) {
                } else {
                    assert(entries@[n as int].id.0 == key);
                }
            }
        }
        Some(Corpus { entries, current: None })
    }

    /// How many testcases there are.
    pub fn count(&self) -> (count: usize)
        ensures
            count == self.entries@.len(),
    {
        self.entries.len()
    }

    /// The names of the testcases, in order.
    pub fn ids(&self) -> (ids: Vec<CorpusId>)
        ensures
            ids@ == ids_of(self.entries@),
    {
        let mut ids: Vec<CorpusId> = Vec::new();
        for n in 0..self.entries.len()
            invariant
                ids@ == ids_of(self.entries@).take(n as int),
        {
            ids.push(self.entries[n].id);
            assert(ids@ =~= ids_of(self.entries@).take(n + 1));
        }
        assert(ids@ =~= ids_of(self.entries@));
        ids
    }

    /// Where a testcase stands among the entries.
    pub fn position(&self, id: CorpusId) -> (position: Option<usize>)
        ensures
            match position {
                Some(n) => n < self.entries@.len() && self.entries@[n as int].id == id,
                None => !self.holds(id),
            },
    {
        for n in 0..self.entries.len()
            invariant
                forall|i: int| 0 <= i < n ==> (#[trigger] self.entries@[i]).id != id,
        {
            if self.entries[n].id == id {
                return Some(n);
            }
        }
        None
    }
}

/// What is known of the blocks next to the covered code.
#[derive(Debug)]
pub struct MapNeighboursFeedbackMetadata {
    /// The blocks that some testcase covers.
    pub covered_blocks: IndexSet,
    /// The blocks that some testcase comes near to.
    pub reachable_blocks: IndexSet,
    /// The testcases that were in the corpus when scores were last computed.
    pub corpus_ids_present_at_recalc: Vec<CorpusId>,
}

/// The probabilities of the testcases.
#[derive(Debug)]
#[verifier::reject_recursive_types(W)]
pub struct ProbabilityMetadata<W> {
    /// corpus index -> probability
    pub map: Table<W>,
    /// total probability of all items in the map
    pub total_probability: W,
    /// Do we need to recalculate the scores?
    pub needs_recalc: bool,
    /// The time that we last recalculated all the scores (in millis)
    pub last_recalc_time: u128,
    /// The amount of time the last recalc took
    pub last_recalc_duration: u128,
}

impl<W: Number> ProbabilityMetadata<W> {
    /// The table of probabilities is well formed.
    pub open spec fn wf(&self) -> bool {
        self.map.wf()
    }

    /// No testcase has a probability, nothing asks for a recalculation, and there was none yet.
    pub open spec fn is_new(&self) -> bool {
        &&& self.wf()
        &&& self.map@ == Map::<usize, W>::empty()
        &&& self.map.order() == Seq::<(usize, W)>::empty()
        &&& call_ensures(W::of_integer, (0,), self.total_probability)
        &&& !self.needs_recalc
        &&& self.last_recalc_time == 0
        &&& self.last_recalc_duration == 0
    }

    /// Creates a new [`struct@ProbabilityMetadata`]
    #[must_use]
    pub fn new() -> (metadata: Self)
        ensures
            metadata.is_new(),
    {
        ProbabilityMetadata {
            map: Table::new(),
            total_probability: W::of_integer(0),
            needs_recalc: false,
            last_recalc_time: 0,
            last_recalc_duration: 0,
        }
    }
}

impl<W: Number> Default for ProbabilityMetadata<W> {
    fn default() -> (metadata: Self)
        ensures
            metadata.is_new(),
    {
        Self::new()
    }
}

/// The corpus with the metadata of the scheduler.
#[derive(Debug)]
#[verifier::reject_recursive_types(W)]
pub struct State<W> {
    /// The testcases.
    pub corpus: Corpus,
    /// The probabilities, once a testcase was added.
    pub metadata: Option<ProbabilityMetadata<W>>,
    /// What is known of the blocks next to the covered code, where it is recorded.
    pub neighbours: Option<MapNeighboursFeedbackMetadata>,
}

impl<W: Number> State<W> {
    /// The names of the testcases are distinct, and the table of probabilities is well formed.
    pub open spec fn wf(&self) -> bool {
        &&& self.corpus.wf()
        &&& self.metadata matches Some(metadata) ==> metadata.wf()
    }

    /// A state without probabilities.
    pub fn new(corpus: Corpus, neighbours: Option<MapNeighboursFeedbackMetadata>) -> (state: Self)
        ensures
            state.corpus == corpus,
            state.metadata is None,
            state.neighbours == neighbours,
    {
        State { corpus, metadata: None, neighbours }
    }
}

} // verus!
