//! The hash maps and hash sets that the scheduler keeps its tallies in.

use vstd::prelude::*;

verus! {

/// A [`hashbrown::HashMap`] from integers to integers.
#[derive(Debug)]
#[verifier::external_body]
pub struct IndexMap {
    inner: hashbrown::HashMap<usize, usize>,
}

/// The keys that a map holds, each with its value.
pub uninterp spec fn index_map_contents(m: IndexMap) -> Map<usize, usize>;

impl View for IndexMap {
    type V = Map<usize, usize>;

    open spec fn view(&self) -> Map<usize, usize> {
        index_map_contents(*self)
    }
}

impl IndexMap {
    /// `hashbrown::HashMap::new`: the new map is empty.
    #[verifier::external_body]
    pub(crate) fn new() -> (m: IndexMap)
        ensures
            (index_map_contents(m) == Map::<usize, usize>::empty()),
    {
        IndexMap { inner: hashbrown::HashMap::new() }
    }

    /// `hashbrown::HashMap::get`: the value of a key, where the map holds the key.
    #[verifier::external_body]
    pub(crate) fn get(&self, key: usize) -> (value: Option<usize>)
        ensures
            value == (if index_map_contents(*self).dom().contains(key) {
                Some(index_map_contents(*self)[key])
            } else {
                None
            }),
    {
        self.inner.get(&key).copied()
    }

    /// `hashbrown::HashMap::insert`: the key has the value from then on, whether it was there
    /// before or not, and no other key is touched. What it returns is not used here.
    #[verifier::external_body]
    pub(crate) fn insert(&mut self, key: usize, value: usize)
        ensures
            index_map_contents(*final(self)) == index_map_contents(*old(self)).insert(key, value),
    {
        self.inner.insert(key, value);
    }

    /// `hashbrown::HashMap::iter`: every key with its value, once, in an order that is not
    /// specified.
    #[verifier::external_body]
    pub(crate) fn entries(&self) -> (entries: Vec<(usize, usize)>)
        ensures
            forall|i: int|
                0 <= i < entries@.len() ==> index_map_contents(*self).dom().contains(
                    (#[trigger] entries@[i]).0,
                ) && index_map_contents(*self)[entries@[i].0] == entries@[i].1,
            forall|i: int, j: int|
                0 <= i < j < entries@.len() ==> (#[trigger] entries@[i]).0 != (
                #[trigger] entries@[j]).0,
            forall|key: usize| #[trigger]
                index_map_contents(*self).dom().contains(key) ==> exists|i: int|
                    0 <= i < entries@.len() && (#[trigger] entries@[i]).0 == key,
    {
        self.inner.iter().map(|entry| (*entry.0, *entry.1)).collect()
    }
}

/// A [`hashbrown::HashMap`] from triples of integers to integers.
#[derive(Debug)]
#[verifier::external_body]
pub struct TripleMap {
    inner: hashbrown::HashMap<(usize, usize, usize), usize>,
}

/// The keys that a map of triples holds, each with its value.
pub uninterp spec fn triple_map_contents(m: TripleMap) -> Map<(usize, usize, usize), usize>;

impl View for TripleMap {
    type V = Map<(usize, usize, usize), usize>;

    open spec fn view(&self) -> Map<(usize, usize, usize), usize> {
        triple_map_contents(*self)
    }
}

impl TripleMap {
    /// `hashbrown::HashMap::new`: the new map is empty.
    #[verifier::external_body]
    pub(crate) fn new() -> (m: TripleMap)
        ensures
            (triple_map_contents(m) == Map::<(usize, usize, usize), usize>::empty()),
    {
        TripleMap { inner: hashbrown::HashMap::new() }
    }

    /// `hashbrown::HashMap::get`: the value of a key, where the map holds the key.
    #[verifier::external_body]
    pub(crate) fn get(&self, key: (usize, usize, usize)) -> (value: Option<usize>)
        ensures
            value == (if triple_map_contents(*self).dom().contains(key) {
                Some(triple_map_contents(*self)[key])
            } else {
                None
            }),
    {
        self.inner.get(&key).copied()
    }

    /// `hashbrown::HashMap::insert`: the key has the value from then on, whether it was there
    /// before or not, and no other key is touched. What it returns is not used here.
    #[verifier::external_body]
    pub(crate) fn insert(&mut self, key: (usize, usize, usize), value: usize)
        ensures
            triple_map_contents(*final(self)) == triple_map_contents(*old(self)).insert(key, value),
    {
        self.inner.insert(key, value);
    }
}

/// A [`hashbrown::HashSet`] of integers.
#[derive(Debug)]
#[verifier::external_body]
pub struct IndexSet {
    inner: hashbrown::HashSet<usize>,
}

/// The items that a set holds.
pub uninterp spec fn index_set_contents(s: IndexSet) -> Set<usize>;

impl View for IndexSet {
    type V = Set<usize>;

    open spec fn view(&self) -> Set<usize> {
        index_set_contents(*self)
    }
}

impl IndexSet {
    /// `hashbrown::HashSet::new`: the new set is empty.
    #[verifier::external_body]
    pub(crate) fn new() -> (s: IndexSet)
        ensures
            index_set_contents(s) == Set::<usize>::empty(),
    {
        IndexSet { inner: hashbrown::HashSet::new() }
    }

    /// `hashbrown::HashSet::contains`: whether the set holds an item.
    #[verifier::external_body]
    pub(crate) fn contains(&self, item: usize) -> (held: bool)
        ensures
            held == index_set_contents(*self).contains(item),
    {
        self.inner.contains(&item)
    }

    /// `hashbrown::HashSet::len`: how many items the set holds.
    #[verifier::external_body]
    pub(crate) fn len(&self) -> (len: usize)
        ensures
            len == index_set_contents(*self).len(),
    {
        self.inner.len()
    }

    /// Whether the set holds an item.
    pub fn holds(&self, item: usize) -> (held: bool)
        ensures
            held == self@.contains(item),
    {
        self.contains(item)
    }

    /// The set of the items of a list.
    pub fn of(items: &Vec<usize>) -> (set: IndexSet)
        ensures
            set@ == items@.to_set(),
    {
        let mut set = IndexSet::new();
        assert(items@.take(0).to_set() =~= Set::empty());
        for n in 0..items.len()
            invariant
                set@ == items@.take(n as int).to_set(),
        {
            set.insert(items[n]);
            proof {
                lemma_to_set_take(items@, n as int);
            }
        }
        assert(items@.take(items@.len() as int) =~= items@);
        set
    }

    /// `hashbrown::HashSet::insert`: the set holds the item from then on; returns whether it is
    /// new.
    #[verifier::external_body]
    pub(crate) fn insert(&mut self, item: usize) -> (new: bool)
        ensures
            index_set_contents(*final(self)) == index_set_contents(*old(self)).insert(item),
            new == !index_set_contents(*old(self)).contains(item),
    {
        self.inner.insert(item)
    }

    /// `hashbrown::HashSet::remove`: the set does not hold the item from then on. What it returns
    /// is not used here.
    #[verifier::external_body]
    pub(crate) fn remove(&mut self, item: usize)
        ensures
            index_set_contents(*final(self)) == index_set_contents(*old(self)).remove(item),
    {
        self.inner.remove(&item);
    }

    /// `hashbrown::HashSet::difference`: the items of `self` that are not in `other`, each once,
    /// in an order that is not specified.
    #[verifier::external_body]
    pub(crate) fn difference(&self, other: &IndexSet) -> (items: Vec<usize>)
        ensures
            items@.no_duplicates(),
            forall|item: usize| #[trigger]
                items@.contains(item) == (index_set_contents(*self).contains(item)
                    && !index_set_contents(*other).contains(item)),
    {
        self.inner.difference(&other.inner).copied().collect()
    }
}

/// One more item of a sequence is one more item of its set.
pub(crate) proof fn lemma_to_set_take(s: Seq<usize>, n: int)
    requires
        0 <= n < s.len(),
    ensures
        s.take(n + 1).to_set() == s.take(n).to_set().insert(s[n]),
{
    let before = s.take(n);
    let after = s.take(n + 1);
    assert(after =~= before.push(s[n]));
    assert forall|x: usize| after.to_set().contains(x) == before.to_set().insert(s[n]).contains(
        x,
    ) by {
        if before.contains(x) {
            let i = choose|i: int| 0 <= i < before.len() && before[i] == x;
            assert(after[i] == x);
        }
        if x == s[n] {
            assert(after[n] == x);
        }
        if after.contains(x) && x != s[n] {
            let i = choose|i: int| 0 <= i < after.len() && after[i] == x;
            assert(before[i] == x);
        }
    }
    assert(after.to_set() =~= before.to_set().insert(s[n]));
}

} // verus!
