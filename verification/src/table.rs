//! Maps from integers to numbers.

use vstd::prelude::*;

use crate::collections::IndexMap;

verus! {

/// A map from integers to values, walked in the order in which the keys came.
///
/// The keys stand in a vector, and so do the values; the hash map says where those of a key stand.
#[derive(Debug)]
#[verifier::reject_recursive_types(W)]
pub struct Table<W> {
    slots: IndexMap,
    keys: Vec<usize>,
    values: Vec<W>,
}

/// `walk` lists every key of `map` with its value, once.
pub open spec fn is_walk<W>(walk: Seq<(usize, W)>, map: Map<usize, W>) -> bool {
    &&& forall|i: int|
        0 <= i < walk.len() ==> map.dom().contains((#[trigger] walk[i]).0) && map[walk[i].0]
            == walk[i].1
    &&& forall|i: int, j: int|
        0 <= i < j < walk.len() ==> (#[trigger] walk[i]).0 != (#[trigger] walk[j]).0
    &&& forall|key: usize| #[trigger]
        map.dom().contains(key) ==> exists|i: int|
            0 <= i < walk.len() && (#[trigger] walk[i]).0 == key
}

/// The walk has the key.
pub open spec fn has_key<W>(walk: Seq<(usize, W)>, key: usize) -> bool {
    exists|i: int| 0 <= i < walk.len() && (#[trigger] walk[i]).0 == key
}

/// The walk after a key got a value: a key that was there stays where it was, and a new one comes
/// last.
pub open spec fn inserted<W>(walk: Seq<(usize, W)>, key: usize, value: W) -> Seq<(usize, W)> {
    if has_key(walk, key) {
        Seq::new(
            walk.len(),
            |i: int|
                if walk[i].0 == key {
                    (key, value)
                } else {
                    walk[i]
                },
        )
    } else {
        walk.push((key, value))
    }
}

impl<W> View for Table<W> {
    type V = Map<usize, W>;

    closed spec fn view(&self) -> Map<usize, W> {
        Map::new(
            |key: usize| self.slots@.dom().contains(key),
            |key: usize| self.values@[self.slots@[key] as int],
        )
    }
}

impl<W: Copy> Table<W> {
    /// Every key has a slot of its own, and there are no other slots.
    pub closed spec fn wf(&self) -> bool {
        &&& self.slots@.dom().finite()
        &&& self.slots@.dom().len() == self.values@.len()
        &&& self.keys@.len() == self.values@.len()
        &&& forall|key: usize| #[trigger]
            self.slots@.dom().contains(key) ==> self.slots@[key] < self.keys@.len()
                && self.keys@[self.slots@[key] as int] == key
        &&& forall|i: int|
            0 <= i < self.keys@.len() ==> self.slots@.dom().contains(#[trigger] self.keys@[i])
                && self.slots@[self.keys@[i]] == i
    }

    /// The keys with their values, in the order in which the table is walked.
    pub closed spec fn order(&self) -> Seq<(usize, W)> {
        Seq::new(self.keys@.len(), |i: int| (self.keys@[i], self.values@[i]))
    }

    /// The order of a table lists every key with its value, once.
    pub proof fn lemma_order(&self)
        requires
            self.wf(),
        ensures
            is_walk(self.order(), self@),
            self@.dom().finite(),
            self@.dom().len() == self.order().len(),
    {
        let order = self.order();
        assert(self@.dom() =~= self.slots@.dom());
        assert forall|i: int| 0 <= i < order.len() implies self@.dom().contains(
            (#[trigger] order[i]).0,
        ) && self@[order[i].0] == order[i].1 by {
            assert(self.slots@.dom().contains(self.keys@[i]));
        }
        assert forall|i: int, j: int| 0 <= i < j < order.len() implies (#[trigger] order[i]).0 != (
        #[trigger] order[j]).0 by {
            assert(self.slots@[self.keys@[i]] == i && self.slots@[self.keys@[j]] == j);
        }
        assert forall|key: usize| #[trigger] self@.dom().contains(key) implies exists|i: int|
            0 <= i < order.len() && (#[trigger] order[i]).0 == key by {
            assert(self.slots@.dom().contains(key));
            assert(order[self.slots@[key] as int].0 == key);
        }
    }

    /// The empty table.
    pub fn new() -> (table: Self)
        ensures
            table.wf(),
            table@ == Map::<usize, W>::empty(),
            table.order() == Seq::<(usize, W)>::empty(),
    {
        let table = Table { slots: IndexMap::new(), keys: Vec::new(), values: Vec::new() };
        assert(table@ =~= Map::<usize, W>::empty());
        assert(table.order() =~= Seq::empty());
        table
    }

    /// How many keys the table holds.
    pub fn len(&self) -> (len: usize)
        requires
            self.wf(),
        ensures
            self@.dom().finite(),
            len == self@.dom().len(),
    {
        assert(self@.dom() =~= self.slots@.dom());
        self.values.len()
    }

    /// The value of a key.
    pub fn get(&self, key: usize) -> (value: Option<W>)
        requires
            self.wf(),
        ensures
            value == (if self@.dom().contains(key) {
                Some(self@[key])
            } else {
                None
            }),
    {
        match self.slots.get(key) {
            Some(slot) => Some(self.values[slot]),
            None => None,
        }
    }

    /// Gives a key a value, in place of the one it had if it had one.
    pub fn insert(&mut self, key: usize, value: W)
        requires
            old(self).wf(),
        ensures
            final(self).wf(),
            final(self)@ == old(self)@.insert(key, value),
            final(self).order() == inserted(old(self).order(), key, value),
    {
        let ghost before = self.order();
        match self.slots.get(key) {
            Some(slot) => {
                self.values.set(slot, value);
                proof {
                    assert(before[slot as int].0 == key);
                    assert forall|i: int| 0 <= i < before.len() implies self.order()[i] == (
                    #[trigger] inserted(before, key, value)[i]) by {
                        assert(self.slots@[self.keys@[i]] == i);
                    }
                    assert(self.order() =~= inserted(before, key, value));
                }
            },
            None => {
                let slot = self.values.len();
                self.slots.insert(key, slot);
                self.keys.push(key);
                self.values.push(value);
                proof {
                    assert forall|i: int| 0 <= i < before.len() implies (#[trigger] before[i]).0
                        != key by {
                        assert(old(self).slots@.dom().contains(old(self).keys@[i]));
                    }
                    assert forall|i: int|
                        0 <= i < self.keys@.len() implies self.slots@.dom().contains(
                        #[trigger] self.keys@[i],
                    ) && self.slots@[self.keys@[i]] == i by {
                        if i < before.len() {
                            assert(before[i].0 == self.keys@[i]);
                            assert(old(self).keys@[i] == self.keys@[i]);
                        }
                    }
                    assert(self.order() =~= before.push((key, value)));
                }
            },
        }
        assert(self@ =~= old(self)@.insert(key, value));
    }

    /// The keys with their values.
    pub fn walk(&self) -> (walk: Vec<(usize, W)>)
        requires
            self.wf(),
        ensures
            walk@ == self.order(),
            is_walk(walk@, self@),
    {
        let mut walk: Vec<(usize, W)> = Vec::new();
        for n in 0..self.keys.len()
            invariant
                self.wf(),
                walk@ == self.order().take(n as int),
        {
            walk.push((self.keys[n], self.values[n]));
            assert(walk@ =~= self.order().take(n + 1));
        }
        assert(walk@ =~= self.order());
        proof {
            self.lemma_order();
        }
        walk
    }
}

} // verus!
