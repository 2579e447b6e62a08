use libafl_bolts::rands::StdRand;
use prob_sampling::collections::IndexSet;
use prob_sampling::model::{
    Corpus, CorpusId, Entry, Error, MapNeighboursFeedbackMetadata, ProbabilityMetadata,
    Reachability, State, Testcase,
};
use prob_sampling::numbers::Number;
use prob_sampling::scheduler::{
    ControlFlowGraph, ProbabilitySamplingScheduler, TestcaseScore,
    UncoveredNeighboursProbabilitySamplingScheduler,
};

#[derive(Clone, Copy, Debug, PartialEq)]
struct Float(f64);

impl Number for Float {
    fn of_integer(n: u128) -> Self {
        Float(n as f64)
    }
    fn plus(self, other: Self) -> Self {
        Float(self.0 + other.0)
    }
    fn minus(self, other: Self) -> Self {
        Float(self.0 - other.0)
    }
    fn times(self, other: Self) -> Self {
        Float(self.0 * other.0)
    }
    fn over(self, other: Self) -> Self {
        Float(self.0 / other.0)
    }
    fn to_the(self, exponent: i32) -> Self {
        Float(self.0.powi(exponent))
    }
    fn is_less(self, other: Self) -> bool {
        self.0 < other.0
    }
    fn is_at_least(self, other: Self) -> bool {
        self.0 >= other.0
    }
}

const FACTOR: f64 = 1337.0;

struct UniformDistribution;

impl TestcaseScore<Float> for UniformDistribution {
    fn compute(_state: &State<Float>, _entry: &Testcase) -> Result<Float, Error> {
        Ok(Float(FACTOR))
    }
}

fn testcase(len: usize) -> Testcase {
    Testcase {
        parent_id: None,
        len,
        exec_time: None,
        indexes: None,
        novelties: None,
        num_mutations_executed: None,
        reachabilities: vec![],
    }
}

fn entry(id: usize, testcase: Testcase) -> Entry {
    Entry { id: CorpusId(id), testcase }
}

#[test]
fn test_prob_sampling() {
    // the first 3 probabilities will be .69, .86, .44
    let draws = [690_000, 860_000, 440_000];

    let mut scheduler = ProbabilitySamplingScheduler::<UniformDistribution, Float>::new();
    let idx1 = CorpusId(0);
    let idx2 = CorpusId(1);
    let corpus = Corpus::new(vec![entry(0, testcase(4)), entry(1, testcase(4))]).unwrap();
    let mut state = State::new(corpus, None);

    scheduler.on_add(&mut state, idx1).unwrap();
    scheduler.on_add(&mut state, idx2).unwrap();
    let next_idx1 = scheduler.next_for_draw(&mut state, draws[0], 1, |_| (1, 0)).unwrap();
    let next_idx2 = scheduler.next_for_draw(&mut state, draws[1], 2, |_| (2, 0)).unwrap();
    let next_idx3 = scheduler.next_for_draw(&mut state, draws[2], 3, |_| (3, 0)).unwrap();
    assert_eq!(next_idx1, next_idx2);
    assert_ne!(next_idx1, next_idx3);
}

type Scheduler = ProbabilitySamplingScheduler<UniformDistribution, Float>;

struct NoDistribution;

impl TestcaseScore<Float> for NoDistribution {
    fn compute(_state: &State<Float>, _entry: &Testcase) -> Result<Float, Error> {
        Err(Error::Unknown("no score".to_string()))
    }
}

struct LengthDistribution;

impl TestcaseScore<Float> for LengthDistribution {
    fn compute(state: &State<Float>, entry: &Testcase) -> Result<Float, Error> {
        Ok(Float((entry.len * state.corpus.count()) as f64))
    }
}

fn reach(index: usize, depth: usize, direct_neighbour_ancestor_index: usize) -> Reachability {
    Reachability { index, depth, direct_neighbour_ancestor_index }
}

fn run(
    len: usize,
    exec_time: u128,
    indexes: Vec<usize>,
    novelties: Vec<usize>,
    num_mutations_executed: Option<usize>,
    reachabilities: Vec<Reachability>,
) -> Testcase {
    Testcase {
        parent_id: None,
        len,
        exec_time: Some(exec_time),
        indexes: Some(indexes),
        novelties: Some(novelties),
        num_mutations_executed,
        reachabilities,
    }
}

fn neighbours(covered: Vec<usize>, reachable: Vec<usize>) -> MapNeighboursFeedbackMetadata {
    MapNeighboursFeedbackMetadata {
        covered_blocks: IndexSet::of(&covered),
        reachable_blocks: IndexSet::of(&reachable),
        corpus_ids_present_at_recalc: vec![],
    }
}

fn three_entries() -> Vec<Entry> {
    vec![
        entry(
            0,
            run(4, 100, vec![1, 2], vec![1, 2], Some(250), vec![reach(10, 1, 10), reach(11, 2, 10)]),
        ),
        entry(
            1,
            run(2, 50, vec![2, 3], vec![3], None, vec![reach(10, 1, 10), reach(12, 1, 12)]),
        ),
        entry(2, run(10, 200, vec![1], vec![], Some(100), vec![])),
    ]
}

fn state_of(entries: Vec<Entry>) -> State<Float> {
    let mut state = State::new(
        Corpus::new(entries).unwrap(),
        Some(neighbours(vec![1, 2, 3], vec![2, 50])),
    );
    state.metadata = Some(ProbabilityMetadata::new());
    state
}

fn probability(state: &State<Float>, id: usize) -> Option<f64> {
    state.metadata.as_ref().unwrap().map.get(id).map(|p| p.0)
}

fn total(state: &State<Float>) -> f64 {
    state.metadata.as_ref().unwrap().total_probability.0
}

fn is_reachable(state: &State<Float>, block: usize) -> bool {
    state.neighbours.as_ref().unwrap().reachable_blocks.holds(block)
}

#[test]
fn new_metadata_is_empty() {
    for metadata in [ProbabilityMetadata::<Float>::new(), ProbabilityMetadata::default()] {
        assert_eq!(metadata.map.len(), 0);
        assert_eq!(metadata.total_probability, Float(0.0));
        assert!(!metadata.needs_recalc);
        assert_eq!(metadata.last_recalc_time, 0);
        assert_eq!(metadata.last_recalc_duration, 0);
    }
}

#[test]
fn the_first_testcase_gets_one_and_the_next_the_average() {
    let mut scheduler = ProbabilitySamplingScheduler::<LengthDistribution, Float>::default();
    let corpus = Corpus::new(vec![
        entry(5, testcase(4)),
        entry(9, testcase(1)),
        entry(2, testcase(7)),
    ])
    .unwrap();
    assert_eq!(corpus.ids(), vec![CorpusId(5), CorpusId(9), CorpusId(2)]);
    let mut state = State::new(corpus, None);
    scheduler.on_add(&mut state, CorpusId(5)).unwrap();
    assert_eq!(probability(&state, 5), Some(1.0));
    assert_eq!(total(&state), 1.0);
    scheduler.on_add(&mut state, CorpusId(9)).unwrap();
    assert_eq!(probability(&state, 9), Some(1.0));
    assert_eq!(total(&state), 2.0);

    scheduler.store_probability(&mut state, CorpusId(2)).unwrap();
    assert_eq!(probability(&state, 2), Some(21.0));
    assert_eq!(total(&state), 23.0);
    scheduler.store_probability(&mut state, CorpusId(9)).unwrap();
    assert_eq!(probability(&state, 9), Some(3.0));
    assert_eq!(total(&state), 25.0);
    scheduler.store_probability(&mut state, CorpusId(5)).unwrap();
    assert_eq!(total(&state), 36.0);

    state.corpus.entries.push(entry(3, testcase(1)));
    scheduler.on_add(&mut state, CorpusId(3)).unwrap();
    assert_eq!(probability(&state, 3), Some(12.0));
    assert_eq!(total(&state), 48.0);
    assert_eq!(probability(&state, 4), None);
    assert!(state.metadata.unwrap().needs_recalc);
}

#[test]
fn a_testcase_that_is_added_again_is_counted_once() {
    let mut scheduler = ProbabilitySamplingScheduler::<LengthDistribution, Float>::new();
    let corpus = Corpus::new(vec![entry(0, testcase(1)), entry(1, testcase(4))]).unwrap();
    let mut state = State::new(corpus, None);
    scheduler.on_add(&mut state, CorpusId(0)).unwrap();
    scheduler.on_add(&mut state, CorpusId(0)).unwrap();
    assert_eq!(probability(&state, 0), Some(1.0));
    assert_eq!(total(&state), 1.0);
    scheduler.on_add(&mut state, CorpusId(1)).unwrap();
    scheduler.store_probability(&mut state, CorpusId(1)).unwrap();
    assert_eq!(probability(&state, 1), Some(8.0));
    assert_eq!(total(&state), 9.0);
    scheduler.on_add(&mut state, CorpusId(0)).unwrap();
    assert_eq!(probability(&state, 0), Some(4.5));
    assert_eq!(total(&state), 12.5);
}

#[test]
fn an_added_testcase_has_the_scheduled_one_as_parent() {
    let mut scheduler = Scheduler::new();
    let corpus = Corpus::new(vec![entry(0, testcase(4)), entry(1, testcase(4))]).unwrap();
    let mut state = State::new(corpus, None);
    scheduler.on_add(&mut state, CorpusId(0)).unwrap();
    assert_eq!(state.corpus.entries[0].testcase.parent_id, None);
    let scheduled = scheduler.next_for_draw(&mut state, 0, 1, |_| (1, 0)).unwrap();
    assert_eq!(scheduled, CorpusId(0));
    assert_eq!(state.corpus.current, Some(CorpusId(0)));
    scheduler.on_add(&mut state, CorpusId(1)).unwrap();
    assert_eq!(state.corpus.entries[1].testcase.parent_id, Some(CorpusId(0)));
    assert_eq!(state.corpus.entries[0].testcase.parent_id, None);
}

#[test]
fn an_unknown_testcase_is_refused() {
    let mut scheduler = Scheduler::new();
    let corpus = Corpus::new(vec![entry(0, testcase(4))]).unwrap();
    let mut state = State::new(corpus, None);
    assert_eq!(
        scheduler.on_add(&mut state, CorpusId(7)),
        Err(Error::KeyNotFound(CorpusId(7)))
    );
    assert!(state.metadata.is_none());
    state.metadata = Some(ProbabilityMetadata::new());
    assert_eq!(
        scheduler.store_probability(&mut state, CorpusId(7)),
        Err(Error::KeyNotFound(CorpusId(7)))
    );
    assert_eq!(probability(&state, 7), None);
}

#[test]
fn a_testcase_without_a_score_is_refused_a_stored_one() {
    let mut scheduler = ProbabilitySamplingScheduler::<NoDistribution, Float>::new();
    let corpus = Corpus::new(vec![entry(0, testcase(4)), entry(1, testcase(4))]).unwrap();
    let mut state = State::new(corpus, None);
    scheduler.on_add(&mut state, CorpusId(0)).unwrap();
    assert_eq!(
        scheduler.store_probability(&mut state, CorpusId(1)),
        Err(Error::Unknown("no score".to_string()))
    );
    assert_eq!(probability(&state, 0), Some(1.0));
    assert_eq!(probability(&state, 1), None);
    assert_eq!(total(&state), 1.0);
}

#[test]
fn adding_does_not_ask_the_calculator() {
    let mut scheduler = UncoveredNeighboursProbabilitySamplingScheduler::<Float>::new();
    let corpus = Corpus::new(vec![entry(0, testcase(4))]).unwrap();
    let mut state = State::new(corpus, None);
    scheduler.on_add(&mut state, CorpusId(0)).unwrap();
    assert_eq!(probability(&state, 0), Some(1.0));
}

#[test]
fn draws_pick_the_testcases_in_the_order_in_which_they_came() {
    let mut scheduler = Scheduler::new();
    let corpus = Corpus::new(vec![entry(0, testcase(4)), entry(1, testcase(4))]).unwrap();
    let mut state = State::new(corpus, None);
    scheduler.on_add(&mut state, CorpusId(0)).unwrap();
    scheduler.on_add(&mut state, CorpusId(1)).unwrap();
    state.metadata.as_mut().unwrap().needs_recalc = false;
    let draws = [690_000, 860_000, 440_000, 500_000, 500_001];
    let picked = draws
        .map(|draw| scheduler.next_for_draw(&mut state, draw, 1, |_| (1, 0)).unwrap());
    assert_eq!(picked, [1, 1, 0, 0, 1].map(CorpusId));
}

#[test]
fn what_left_the_corpus_is_not_scheduled() {
    let mut scheduler = Scheduler::new();
    let corpus = Corpus::new(vec![entry(0, testcase(4)), entry(1, testcase(4))]).unwrap();
    let mut state = State::new(corpus, None);
    let mut metadata = ProbabilityMetadata::new();
    metadata.map.insert(0, Float(1.0));
    metadata.map.insert(7, Float(6.0));
    metadata.map.insert(1, Float(3.0));
    metadata.total_probability = Float(10.0);
    state.metadata = Some(metadata);
    let mut counts = [0, 0];
    for draw in (0..1_000_000).step_by(1000) {
        let id = scheduler.next_for_draw(&mut state, draw, 1, |_| (1, 0)).unwrap();
        counts[id.0] += 1;
    }
    assert_eq!(counts, [251, 749]);
    assert_eq!(probability(&state, 7), Some(6.0));
    assert_eq!(total(&state), 10.0);
}

#[test]
fn an_empty_corpus_has_no_next_entry() {
    let mut scheduler = Scheduler::new();
    let mut state = State::new(Corpus::new(vec![]).unwrap(), None);
    let expected = Err(Error::Empty("No entries in corpus".to_string()));
    assert_eq!(scheduler.next_for_draw(&mut state, 0, 1, |_| (1, 0)), expected);
    let mut rand = StdRand::with_seed(12);
    assert_eq!(scheduler.next(&mut state, &mut rand, 1, |_| (1, 0)), expected);
    assert_eq!(state.corpus.current, None);
}

#[test]
fn random_draws_pick_both_of_two_testcases() {
    let mut scheduler = Scheduler::new();
    let corpus = Corpus::new(vec![entry(0, testcase(4)), entry(1, testcase(4))]).unwrap();
    let mut state = State::new(corpus, None);
    scheduler.on_add(&mut state, CorpusId(0)).unwrap();
    scheduler.on_add(&mut state, CorpusId(1)).unwrap();
    // the first 4 probabilities are .07, .41, .11, .86
    let mut rand = StdRand::with_seed(12);
    let mut picked = vec![];
    for now in 1..5 {
        picked.push(scheduler.next(&mut state, &mut rand, now, |_| (now, 0)).unwrap());
    }
    assert_eq!(picked[0], picked[1]);
    assert_eq!(picked[0], picked[2]);
    assert_ne!(picked[0], picked[3]);
}

#[test]
fn a_recalculation_scores_every_testcase() {
    let scheduler = Scheduler::new();
    let mut state = state_of(three_entries());
    assert!(scheduler.can_recalc(&state));
    let report = scheduler.recalc_all_probabilities(&mut state).unwrap();

    let weight = 0.9999f64.powi(2);
    assert!((weight - 0.99980001).abs() < 1e-12);
    assert_eq!(probability(&state, 0), Some(weight * 0.5));
    assert_eq!(probability(&state, 1), Some(weight * 0.5 + 1.0));
    assert_eq!(probability(&state, 2), Some(0.0));
    assert_eq!(total(&state), weight * 0.5 + (weight * 0.5 + 1.0));

    assert_eq!(report.corpus_size, 3);
    assert!(report.is_reachability_favored(CorpusId(0)));
    assert!(report.is_reachability_favored(CorpusId(1)));
    assert!(!report.is_reachability_favored(CorpusId(2)));
    assert!(!report.is_coverage_favored(CorpusId(2)));
    assert_eq!(report.counts(), (2, 0, 3));
    assert!(report.favored_edges.holds(1) && report.favored_edges.holds(3));
    assert!(!report.favored_edges.holds(10));
    assert!(report.skipped.is_empty());
}

#[test]
fn where_everything_left_the_corpus_nothing_is_scheduled() {
    let mut scheduler = Scheduler::new();
    let mut state = State::new(Corpus::new(vec![entry(0, testcase(4))]).unwrap(), None);
    let mut metadata = ProbabilityMetadata::new();
    metadata.map.insert(7, Float(6.0));
    metadata.total_probability = Float(6.0);
    state.metadata = Some(metadata);
    let expected =
        Err(Error::IllegalState("No testcase of the corpus has a probability".to_string()));
    assert_eq!(scheduler.next_for_draw(&mut state, 3, 1, |_| (1, 0)), expected);
    let mut rand = StdRand::with_seed(12);
    assert_eq!(scheduler.next(&mut state, &mut rand, 1, |_| (1, 0)), expected);
    let next = scheduler.next_with_graph(&mut state, &Successors, &mut rand, 1, |_| (1, 0));
    assert_eq!(next, expected);
    assert_eq!(state.corpus.current, None);
    assert_eq!(probability(&state, 7), Some(6.0));
}

#[test]
fn lengths_do_not_influence_scores() {
    let scheduler = Scheduler::new();
    let scores = |lengths: [usize; 3]| {
        let mut entries = three_entries();
        for n in 0..3 {
            entries[n].testcase.len = lengths[n];
        }
        let mut state = state_of(entries);
        scheduler.recalc_all_probabilities(&mut state).unwrap();
        (state.metadata.as_ref().unwrap().map.walk(), total(&state))
    };
    assert_eq!(scores([4, 2, 10]), scores([900, 0, 1]));
}

#[test]
fn most_of_the_time_is_not_spent_recalculating() {
    let mut scheduler = Scheduler::new();
    let mut state = state_of(three_entries());
    let mut spent = 0;
    let mut starts = vec![];
    for now in 0..5000 {
        scheduler.on_add(&mut state, CorpusId((now % 3) as usize)).unwrap();
        let duration = 3 + now % 7;
        let mut recalculated = false;
        let told = |_| {
            recalculated = true;
            (now + duration, duration)
        };
        if state.metadata.as_ref().unwrap().last_recalc_time <= now {
            scheduler.next_for_draw(&mut state, 7, now, told).unwrap();
        }
        if recalculated {
            starts.push((now, spent));
            spent += duration;
        }
    }
    assert!(starts.len() > 10);
    for (start, spent) in starts {
        assert!(10 * spent <= start);
    }
}

#[test]
fn a_recalculation_drops_what_left_the_corpus() {
    let scheduler = Scheduler::new();
    let mut state = state_of(three_entries());
    state.metadata.as_mut().unwrap().map.insert(77, Float(3.5));
    scheduler.recalc_all_probabilities(&mut state).unwrap();
    assert_eq!(probability(&state, 77), None);
    assert_eq!(state.metadata.as_ref().unwrap().map.len(), 3);
    let weight = 0.9999f64.powi(2);
    assert_eq!(total(&state), weight * 0.5 + (weight * 0.5 + 1.0));
}

#[test]
fn a_recalculation_updates_the_reachable_blocks() {
    let scheduler = Scheduler::new();
    let mut state = state_of(three_entries());
    scheduler.recalculate_reachable_blocks(&mut state);
    for block in [50, 10, 11, 12] {
        assert!(is_reachable(&state, block));
    }
    for block in [1, 2, 3, 13] {
        assert!(!is_reachable(&state, block));
    }
    let known = &state.neighbours.as_ref().unwrap().corpus_ids_present_at_recalc;
    assert_eq!(*known, vec![CorpusId(0), CorpusId(1), CorpusId(2)]);

    let covered = &state.neighbours.as_ref().unwrap().covered_blocks;
    assert!(covered.holds(1) && covered.holds(2) && covered.holds(3) && !covered.holds(10));
}

#[test]
fn a_second_recalculation_changes_nothing() {
    let scheduler = Scheduler::new();
    let mut state = state_of(three_entries());
    scheduler.recalc_all_probabilities(&mut state).unwrap();
    let scores = [0, 1, 2].map(|id| probability(&state, id));
    let sum = total(&state);
    scheduler.recalc_all_probabilities(&mut state).unwrap();
    assert_eq!([0, 1, 2].map(|id| probability(&state, id)), scores);
    assert_eq!(total(&state), sum);
    for block in 0..60 {
        assert_eq!(is_reachable(&state, block), [50, 10, 11, 12].contains(&block));
    }
}

#[test]
fn a_block_that_a_later_testcase_covers_is_not_reachable() {
    let near = || run(1, 1, vec![1], vec![], None, vec![reach(20, 1, 20)]);
    let covers = || run(1, 1, vec![20], vec![20], None, vec![]);
    let scheduler = Scheduler::new();
    let mut state = state_of(vec![entry(0, near()), entry(1, covers())]);
    scheduler.recalculate_reachable_blocks(&mut state);
    assert!(!is_reachable(&state, 20));
    let mut state = state_of(vec![entry(1, covers()), entry(0, near())]);
    scheduler.recalculate_reachable_blocks(&mut state);
    assert!(is_reachable(&state, 20));
}

#[test]
fn only_new_testcases_change_the_reachable_blocks() {
    let scheduler = Scheduler::new();
    let mut state = state_of(vec![
        entry(0, run(1, 1, vec![1], vec![30], None, vec![reach(20, 1, 20)])),
        entry(1, run(1, 1, vec![1], vec![31], None, vec![reach(21, 1, 21)])),
    ]);
    let known = state.neighbours.as_mut().unwrap();
    known.reachable_blocks = IndexSet::of(&vec![30, 31]);
    known.corpus_ids_present_at_recalc = vec![CorpusId(0)];
    scheduler.recalculate_reachable_blocks(&mut state);
    assert!(is_reachable(&state, 30));
    assert!(!is_reachable(&state, 20));
    assert!(!is_reachable(&state, 31));
    assert!(is_reachable(&state, 21));
}

#[test]
fn rare_blocks_are_worth_more() {
    let scheduler = Scheduler::new();
    let mut state = state_of(vec![
        entry(0, run(1, 10, vec![1], vec![], None, vec![reach(20, 1, 20), reach(21, 4, 20)])),
        entry(1, run(1, 10, vec![1], vec![], None, vec![reach(20, 1, 20)])),
        entry(2, run(1, 10, vec![1], vec![], None, vec![reach(22, 1, 22)])),
        entry(3, run(1, 10, vec![1], vec![], None, vec![reach(20, 1, 20), reach(20, 2, 22)])),
    ]);
    scheduler.recalc_all_probabilities(&mut state).unwrap();
    let third = 1.0 / 3.0;
    assert_eq!(probability(&state, 0), Some(third + 0.25));
    assert_eq!(probability(&state, 1), Some(third));
    assert_eq!(probability(&state, 2), Some(1.0));
    assert_eq!(probability(&state, 3), Some(third + 0.5));
}

#[test]
fn faster_testcases_are_worth_more() {
    let scheduler = Scheduler::new();
    let mut state = state_of(vec![
        entry(0, run(9, 80, vec![1], vec![], None, vec![reach(20, 1, 20)])),
        entry(1, run(1, 20, vec![1], vec![], None, vec![reach(20, 1, 20)])),
    ]);
    scheduler.recalc_all_probabilities(&mut state).unwrap();
    assert_eq!(probability(&state, 0), Some(0.125));
    assert_eq!(probability(&state, 1), Some(0.5));
    assert_eq!(total(&state), 0.625);
}

#[test]
fn fuzzed_neighbours_are_worth_less() {
    let scheduler = Scheduler::new();
    for (mutations, decrements) in [(0, 0), (99, 0), (100, 1), (199, 1), (123_456, 1234)] {
        let mut state = state_of(vec![
            entry(0, run(1, 10, vec![1], vec![], Some(mutations), vec![reach(20, 1, 20)])),
        ]);
        scheduler.recalc_all_probabilities(&mut state).unwrap();
        assert_eq!(probability(&state, 0), Some(0.9999f64.powi(decrements)));
    }
}

#[test]
fn mutations_of_all_direct_neighbours_are_added_up() {
    let scheduler = Scheduler::new();
    let mut state = state_of(vec![
        entry(0, run(1, 10, vec![1], vec![], Some(60), vec![reach(20, 1, 20)])),
        entry(1, run(1, 10, vec![1], vec![], Some(50), vec![reach(20, 1, 20)])),
        entry(2, run(1, 10, vec![1], vec![], Some(5000), vec![reach(20, 2, 20)])),
    ]);
    scheduler.recalc_all_probabilities(&mut state).unwrap();
    assert_eq!(probability(&state, 0), Some(0.9999 * 0.5));
    assert_eq!(probability(&state, 2), Some(0.9999 / 2.0));
}

#[test]
fn the_cheapest_testcases_are_favored() {
    let scheduler = Scheduler::new();
    let mut state = state_of(vec![
        // comes near to block 20, but costs more than the next one
        entry(0, run(10, 10, vec![1], vec![], None, vec![reach(20, 1, 20)])),
        entry(1, run(5, 10, vec![1], vec![], None, vec![reach(20, 1, 20)])),
        // covers something of its own
        entry(2, run(50, 10, vec![1, 7], vec![], None, vec![reach(20, 1, 20)])),
        // is cheap, but comes less near
        entry(3, run(1, 10, vec![], vec![], None, vec![reach(20, 2, 20)])),
    ]);
    let report = scheduler.recalc_all_probabilities(&mut state).unwrap();
    assert_eq!(report.counts(), (1, 1, 2));
    assert!(report.is_reachability_favored(CorpusId(1)));
    assert!(report.is_coverage_favored(CorpusId(2)));
    assert!(!report.is_reachability_favored(CorpusId(2)));
    for id in [0, 3] {
        assert!(!report.is_reachability_favored(CorpusId(id)));
        assert!(!report.is_coverage_favored(CorpusId(id)));
    }
    assert!(report.favored_edges.holds(7));
}

#[test]
fn of_two_testcases_of_the_same_cost_the_first_is_favored() {
    let scheduler = Scheduler::new();
    let mut state = state_of(vec![
        entry(8, run(2, 10, vec![1], vec![], None, vec![reach(20, 1, 20)])),
        entry(3, run(4, 5, vec![1], vec![], None, vec![reach(20, 1, 20)])),
    ]);
    let report = scheduler.recalc_all_probabilities(&mut state).unwrap();
    assert!(report.is_reachability_favored(CorpusId(8)));
    assert!(!report.is_reachability_favored(CorpusId(3)));
}

#[test]
fn a_recalculation_needs_records() {
    let scheduler = Scheduler::new();
    let complete = || run(1, 10, vec![1], vec![1], None, vec![reach(20, 1, 20)]);
    assert!(scheduler.can_recalc(&state_of(vec![entry(0, complete())])));

    let mut state = state_of(vec![entry(0, complete())]);
    state.neighbours = None;
    assert!(!scheduler.can_recalc(&state));

    let without = |change: fn(&mut Testcase)| {
        let mut testcase = complete();
        change(&mut testcase);
        state_of(vec![entry(0, testcase)])
    };
    assert!(!scheduler.can_recalc(&without(|tc| tc.exec_time = None)));
    assert!(!scheduler.can_recalc(&without(|tc| tc.indexes = None)));
    assert!(!scheduler.can_recalc(&without(|tc| tc.novelties = None)));
    assert!(!scheduler.can_recalc(&without(|tc| tc.reachabilities = vec![reach(20, 1, 21)])));
    assert!(!scheduler.can_recalc(&without(|tc| tc.reachabilities = vec![reach(20, 2, 20)])));
    assert!(scheduler.can_recalc(&without(|tc| tc.num_mutations_executed = Some(usize::MAX))));

    let mut known = without(|tc| tc.novelties = None);
    known.neighbours.as_mut().unwrap().corpus_ids_present_at_recalc = vec![CorpusId(0)];
    assert!(scheduler.can_recalc(&known));
}

#[test]
fn mutations_that_cannot_be_counted_stop_a_recalculation() {
    let scheduler = Scheduler::new();
    let state = state_of(vec![
        entry(0, run(1, 10, vec![1], vec![1], Some(usize::MAX), vec![reach(20, 1, 20)])),
        entry(1, run(1, 10, vec![1], vec![1], Some(1), vec![reach(20, 1, 20)])),
    ]);
    assert!(!scheduler.can_recalc(&state));
}

#[test]
fn recalculations_wait_ten_times_as_long_as_they_take() {
    let mut scheduler = Scheduler::new();
    let mut state = state_of(three_entries());
    for id in [0, 1, 2] {
        scheduler.on_add(&mut state, CorpusId(id)).unwrap();
    }
    assert_eq!(probability(&state, 2), Some(1.0));
    let metadata = state.metadata.as_mut().unwrap();
    metadata.last_recalc_time = 1000;
    metadata.last_recalc_duration = 10;

    assert!(!scheduler.recalc_due(&state, 1099));
    scheduler.next_for_draw(&mut state, 500_000, 1099, |_| panic!("too early")).unwrap();
    assert_eq!(probability(&state, 2), Some(1.0));
    assert!(state.metadata.as_ref().unwrap().needs_recalc);

    assert!(scheduler.recalc_due(&state, 1100));
    let told = |report: prob_sampling::favored::RecalcReport| {
        assert_eq!(report.counts(), (2, 0, 3));
        (1107, 7)
    };
    let id = scheduler.next_for_draw(&mut state, 999_999, 1100, told).unwrap();
    assert_eq!(probability(&state, 2), Some(0.0));
    let metadata = state.metadata.as_ref().unwrap();
    assert!(!metadata.needs_recalc);
    assert_eq!(metadata.last_recalc_time, 1107);
    assert_eq!(metadata.last_recalc_duration, 7);
    assert!(id == CorpusId(0) || id == CorpusId(1));
    assert!(!scheduler.recalc_due(&state, 5000));
}

#[test]
fn a_recalculation_waits_for_the_neighbours() {
    let scheduler = Scheduler::new();
    let mut state = state_of(three_entries());
    state.metadata.as_mut().unwrap().needs_recalc = true;
    assert!(scheduler.recalc_due(&state, 1));
    state.neighbours = None;
    assert!(!scheduler.recalc_due(&state, 1));
    state.metadata = None;
    assert!(!scheduler.recalc_due(&state, 1));
}

#[test]
fn testcases_without_a_score_are_not_scheduled() {
    let mut scheduler = Scheduler::new();
    let mut state = state_of(three_entries());
    scheduler.recalc_all_probabilities(&mut state).unwrap();
    for draw in (1..1_000_000).step_by(9973) {
        let id = scheduler.next_for_draw(&mut state, draw, 1, |_| (1, 0)).unwrap();
        assert_ne!(id, CorpusId(2));
        assert!(state.corpus.ids().contains(&id));
        assert_eq!(state.corpus.current, Some(id));
    }
}

struct Successors;

impl ControlFlowGraph for Successors {
    fn get_all_neighbours_full_depth(
        &self,
        covered_indexes: &Vec<usize>,
        covered_blocks: &IndexSet,
    ) -> Vec<Reachability> {
        let next = |index: &usize| index + 1;
        let blocks = covered_indexes.iter().map(next).filter(|b| !covered_blocks.holds(*b));
        blocks.map(|block| reach(block, 1, block)).collect()
    }
}

#[test]
fn the_graph_is_asked_about_every_testcase() {
    let scheduler = Scheduler::new();
    let mut state = state_of(three_entries());
    scheduler.refresh_reachabilities(&mut state, &Successors);
    assert!(state.corpus.entries[0].testcase.reachabilities.is_empty());
    assert_eq!(state.corpus.entries[1].testcase.reachabilities, vec![reach(4, 1, 4)]);
    assert!(state.corpus.entries[2].testcase.reachabilities.is_empty());
    assert_eq!(state.corpus.entries[1].testcase.indexes, Some(vec![2, 3]));
    assert_eq!(state.corpus.ids(), vec![CorpusId(0), CorpusId(1), CorpusId(2)]);
    scheduler.recalc_all_probabilities(&mut state).unwrap();
    assert_eq!(probability(&state, 0), Some(0.0));
    assert_eq!(probability(&state, 1), Some(1.0));
}

#[test]
fn the_graph_is_asked_before_a_recalculation() {
    let mut scheduler = Scheduler::new();
    let mut state = state_of(three_entries());
    for id in [0, 1, 2] {
        scheduler.on_add(&mut state, CorpusId(id)).unwrap();
    }
    let mut rand = StdRand::with_seed(12);
    let next = scheduler.next_with_graph(&mut state, &Successors, &mut rand, 5, |report| {
        assert_eq!(report.corpus_size, 3);
        (6, 1)
    });
    assert!(next.is_ok());
    assert_eq!(state.corpus.current, next.ok());
    assert_eq!(state.corpus.entries[1].testcase.reachabilities, vec![reach(4, 1, 4)]);
    assert_eq!([0, 1, 2].map(|id| probability(&state, id)), [0.0, 1.0, 0.0].map(Some));
    assert_eq!(state.metadata.as_ref().unwrap().last_recalc_time, 6);

    // nothing is due any more, so that the graph is not asked
    state.corpus.entries[1].testcase.reachabilities = vec![];
    let next = scheduler.next_with_graph(&mut state, &Successors, &mut rand, 500, |_| (0, 0));
    assert!(next.is_ok());
    assert!(state.corpus.entries[1].testcase.reachabilities.is_empty());
}

#[test]
fn an_impossible_recalculation_schedules_nothing() {
    let mut scheduler = Scheduler::new();
    let mut state = state_of(three_entries());
    state.corpus.entries[1].testcase.exec_time = None;
    scheduler.on_add(&mut state, CorpusId(0)).unwrap();
    let mut rand = StdRand::with_seed(12);
    let next = scheduler.next_with_graph(&mut state, &Successors, &mut rand, 5, |_| (0, 0));
    assert_eq!(next, Err(Error::IllegalState("No recalculation is possible".to_string())));
    assert_eq!(state.corpus.current, None);
    assert_eq!(state.corpus.entries[1].testcase.reachabilities, vec![reach(4, 1, 4)]);
    assert!(state.metadata.as_ref().unwrap().needs_recalc);

    let mut empty = State::new(Corpus::new(vec![]).unwrap(), None);
    assert_eq!(
        scheduler.next_with_graph(&mut empty, &Successors, &mut rand, 5, |_| (0, 0)),
        Err(Error::Empty("No entries in corpus".to_string()))
    );
}

#[test]
fn more_mutations_give_no_larger_scores() {
    let scheduler = Scheduler::new();
    let scores = |mutations: usize| {
        let mut entries = three_entries();
        entries[0].testcase.num_mutations_executed = Some(mutations);
        let mut state = state_of(entries);
        scheduler.recalc_all_probabilities(&mut state).unwrap();
        [probability(&state, 0), probability(&state, 1), Some(total(&state))]
    };
    let fewer = scores(100);
    let more = scores(5000);
    for n in 0..3 {
        assert!(more[n].unwrap() < fewer[n].unwrap());
    }
}

#[test]
fn what_reaches_more_in_less_time_scores_more() {
    let scheduler = Scheduler::new();
    let mut state = state_of(vec![
        entry(0, run(1, 10, vec![1], vec![], None, vec![reach(21, 1, 21), reach(20, 1, 20)])),
        entry(1, run(1, 40, vec![1], vec![], None, vec![reach(20, 1, 20)])),
    ]);
    scheduler.recalc_all_probabilities(&mut state).unwrap();
    assert_eq!(probability(&state, 0), Some(1.5));
    assert_eq!(probability(&state, 1), Some(0.125));
}

#[test]
fn names_of_a_corpus_are_distinct() {
    assert!(Corpus::new(vec![entry(4, testcase(1)), entry(4, testcase(2))]).is_none());
    let corpus = Corpus::new(vec![entry(4, testcase(1)), entry(6, testcase(2))]).unwrap();
    assert_eq!(corpus.count(), 2);
    assert_eq!(corpus.position(CorpusId(6)), Some(1));
    assert_eq!(corpus.position(CorpusId(5)), None);
}

#[test]
fn a_scheduler_holds_nothing() {
    assert_eq!(std::mem::size_of::<Scheduler>(), 0);
    let mut state = state_of(three_entries());
    Scheduler::new().recalc_all_probabilities(&mut state).unwrap();
    let mut copy = Scheduler::default().clone();
    assert!(copy.next_for_draw(&mut state, 500_000, 1, |_| (1, 0)).is_ok());
}

#[test]
fn the_total_is_that_of_the_map() {
    let mut scheduler = Scheduler::new();
    let mut state = state_of(three_entries());
    let sum = |state: &State<Float>| -> f64 {
        state.metadata.as_ref().unwrap().map.walk().iter().map(|item| item.1 .0).sum()
    };
    assert_eq!(sum(&state), total(&state));
    for id in [0, 1, 2] {
        scheduler.on_add(&mut state, CorpusId(id)).unwrap();
        assert_eq!(sum(&state), total(&state));
    }
    scheduler.recalc_all_probabilities(&mut state).unwrap();
    assert!((sum(&state) - total(&state)).abs() < 1e-12);
}
