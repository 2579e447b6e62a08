use prob_sampling::collections::IndexSet;
use prob_sampling::model::{CorpusId, Entry, Testcase};
use prob_sampling::numbers::Number;
use prob_sampling::ordering::order_by_runtime;
use prob_sampling::sampling::{choose_position, hold, pick};
use prob_sampling::table::Table;

#[derive(Clone, Copy, Debug, PartialEq)]
struct Float(f64);

impl Number for Float {
    fn of_integer(n: u128) -> Self {
        Float(n as f64)
    }
    fn plus(self, other: Self) -> Self {
        Float(self.0 + other.0)
    }
    fn minus(self, other: Self) -> Self {
        Float(self.0 - other.0)
    }
    fn times(self, other: Self) -> Self {
        Float(self.0 * other.0)
    }
    fn over(self, other: Self) -> Self {
        Float(self.0 / other.0)
    }
    fn to_the(self, exponent: i32) -> Self {
        Float(self.0.powi(exponent))
    }
    fn is_less(self, other: Self) -> bool {
        self.0 < other.0
    }
    fn is_at_least(self, other: Self) -> bool {
        self.0 >= other.0
    }
}

#[test]
fn a_set_holds_the_items_of_its_list() {
    let set = IndexSet::of(&vec![3, 5, 3]);
    assert!(set.holds(3) && set.holds(5));
    assert!(!set.holds(4));
    assert!(!IndexSet::of(&vec![]).holds(0));
}

#[test]
fn a_table_gives_back_what_was_inserted() {
    let mut table: Table<char> = Table::new();
    assert_eq!(table.len(), 0);
    assert!(table.walk().is_empty());
    table.insert(900, 'a');
    table.insert(7, 'b');
    table.insert(900, 'c');
    assert_eq!(table.len(), 2);
    assert_eq!(table.get(900), Some('c'));
    assert_eq!(table.get(7), Some('b'));
    assert_eq!(table.get(8), None);
}

#[test]
fn a_walk_lists_every_key_once_in_the_order_in_which_they_came() {
    let mut table: Table<usize> = Table::new();
    for key in 0..200 {
        table.insert(key * 31, 0);
    }
    for key in (0..200).rev() {
        table.insert(key * 31, key);
    }
    let walk = table.walk();
    let expected: Vec<(usize, usize)> = (0..200).map(|key| (key * 31, key)).collect();
    assert_eq!(walk, expected);
}

#[test]
fn the_first_position_that_reaches_the_threshold_is_chosen() {
    let walk = vec![(4, Float(1.0)), (8, Float(0.0)), (6, Float(2.0))];
    assert_eq!(choose_position(&walk, Float(0.0)), 0);
    assert_eq!(choose_position(&walk, Float(1.0)), 0);
    assert_eq!(choose_position(&walk, Float(1.5)), 2);
    assert_eq!(choose_position(&walk, Float(3.0)), 2);
    // what is never reached picks the last one
    assert_eq!(choose_position(&walk, Float(3.5)), 2);
}

#[test]
fn each_position_is_chosen_for_its_share() {
    let walk = vec![(4, Float(1.0)), (8, Float(3.0))];
    let mut chosen = [0, 0];
    for draw in 0..1_000_000 {
        let threshold = Float(4.0).times(Float(draw as f64).over(Float(1_000_000.0)));
        chosen[choose_position(&walk, threshold)] += 1;
    }
    assert_eq!(chosen, [250_001, 749_999]);
}

fn entry(id: usize, len: usize, exec_time: u128) -> Entry {
    Entry {
        id: CorpusId(id),
        testcase: Testcase {
            parent_id: None,
            len,
            exec_time: Some(exec_time),
            indexes: None,
            novelties: None,
            num_mutations_executed: None,
            reachabilities: vec![],
        },
    }
}

#[test]
fn the_cheapest_testcase_comes_first() {
    let costs = [(3, 9), (2, 4), (4, 2), (1, 8), (1, 1), (9, 3), (0, 5)];
    let entries: Vec<Entry> =
        costs.iter().map(|(len, exec_time)| entry(0, *len, *exec_time)).collect();
    assert_eq!(order_by_runtime::<Float>(&entries), vec![6, 4, 1, 2, 3, 0, 5]);
    assert_eq!(order_by_runtime::<Float>(&vec![]), Vec::<usize>::new());
}

#[test]
fn a_draw_picks_a_part_of_the_total() {
    let walk = vec![(4, Float(1.0)), (8, Float(3.0))];
    assert_eq!(pick(&walk, Float(4.0), 0), 0);
    assert_eq!(pick(&walk, Float(4.0), 250_000), 0);
    assert_eq!(pick(&walk, Float(4.0), 250_001), 1);
    assert_eq!(pick(&walk, Float(4.0), 999_999), 1);
}

#[test]
fn what_is_not_in_the_corpus_is_taken_out() {
    let walk = vec![(4, Float(1.0)), (8, Float(3.0)), (5, Float(0.5))];
    let entries = vec![entry(5, 1, 1), entry(4, 1, 1)];
    let (held, total) = hold(&walk, &entries, Float(4.5));
    assert_eq!(held, vec![(4, Float(1.0)), (5, Float(0.5))]);
    assert_eq!(total, Float(1.5));
}
