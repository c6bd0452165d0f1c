//! A map kept as a sorted vector, with lookup by binary search.
use crate::order::{Key, Rank};
use vstd::prelude::*;

verus! {

/// A finite map from keys to values. Every key occurs at most once, and the entries are
/// stored in ascending key order.
#[verifier::reject_recursive_types(K)]
#[verifier::reject_recursive_types(V)]
#[derive(Debug)]
pub struct KeyMap<K: Key, V> {
    entries: Vec<(K, V)>,
}

impl<K: Key, V> View for KeyMap<K, V> {
    type V = Map<K::Model, V>;

    closed spec fn view(&self) -> Map<K::Model, V> {
        Map::new(
            |k: K::Model| exists|i: int| self.holds_at(k, i),
            |k: K::Model| self.entries@[choose|i: int| self.holds_at(k, i)].1,
        )
    }
}

impl<K: Key, V> KeyMap<K, V> {
    spec fn holds_at(&self, k: K::Model, i: int) -> bool {
        0 <= i < self.entries@.len() && self.entries@[i].0.model() == k
    }

    /// The stored entries are in strictly ascending key order.
    pub closed spec fn wf(&self) -> bool {
        forall|i: int, j: int|
            #![trigger self.entries@[i], self.entries@[j]]
            0 <= i < j < self.entries@.len() ==> K::before(
                self.entries@[i].0.model(),
                self.entries@[j].0.model(),
            )
    }

    /// The keys in the order in which they are stored.
    pub closed spec fn key_order(&self) -> Seq<K::Model> {
        Seq::new(self.entries@.len(), |i: int| self.entries@[i].0.model())
    }

    /// The stored keys are those of the map, each once.
    pub proof fn lemma_key_order(&self)
        requires
            self.wf(),
        ensures
            self.key_order().no_duplicates(),
            forall|k: K::Model| self.key_order().contains(k) <==> #[trigger] self@.contains_key(k),
    {
        assert forall|i: int, j: int|
            0 <= i < self.key_order().len() && 0 <= j < self.key_order().len() && i
                != j implies self.key_order()[i] != self.key_order()[j] by {
            self.lemma_unique(i, j);
        }
        assert forall|k: K::Model| self.key_order().contains(k) <==> #[trigger] self@.contains_key(
            k,
        ) by {
            if self.key_order().contains(k) {
                let i = self.key_order().index_of(k);
                assert(self.holds_at(k, i));
            }
            if self@.contains_key(k) {
                let i = choose|i: int| self.holds_at(k, i);
                assert(self.key_order()[i] == k);
            }
        }
    }

    proof fn lemma_unique(&self, i: int, j: int)
        requires
            self.wf(),
            0 <= i < self.entries@.len(),
            0 <= j < self.entries@.len(),
        ensures
            self.entries@[i].0.model() == self.entries@[j].0.model() ==> i == j,
    {
        K::never_before_itself(self.entries@[i].0.model());
        K::never_before_itself(self.entries@[j].0.model());
        let _ = (self.entries@[i], self.entries@[j]);
    }

    proof fn lemma_entry(&self, i: int)
        requires
            self.wf(),
            0 <= i < self.entries@.len(),
        ensures
            self@.contains_key(self.entries@[i].0.model()),
            self@[self.entries@[i].0.model()] == self.entries@[i].1,
    {
        let k = self.entries@[i].0.model();
        assert(self.holds_at(k, i));
        let j = choose|j: int| self.holds_at(k, j);
        self.lemma_unique(i, j);
    }

    proof fn lemma_absent(&self, k: K::Model, at: int)
        requires
            0 <= at <= self.entries@.len(),
            forall|i: int| 0 <= i < at ==> K::before(#[trigger] self.entries@[i].0.model(), k),
            forall|i: int|
                at <= i < self.entries@.len() ==> K::before(
                    k,
                    #[trigger] self.entries@[i].0.model(),
                ),
        ensures
            !self@.contains_key(k),
    {
        K::never_before_itself(k);
        if self@.contains_key(k) {
            let i = choose|i: int| self.holds_at(k, i);
            assert(self.entries@[i].0.model() == k);
        }
    }

    /// An empty map.
    pub fn new() -> (map: Self)
        ensures
            map.wf(),
            map@ == Map::<K::Model, V>::empty(),
    {
        let map = KeyMap { entries: Vec::new() };
        assert(map@ =~= Map::empty());
        map
    }

    /// The number of keys.
    pub fn len(&self) -> (len: usize)
        requires
            self.wf(),
        ensures
            len == self.key_order().len(),
    {
        self.entries.len()
    }

    /// Whether the map has no key.
    pub fn is_empty(&self) -> (empty: bool)
        requires
            self.wf(),
        ensures
            empty == (self@ == Map::<K::Model, V>::empty()),
    {
        let empty = self.entries.len() == 0;
        proof {
            if empty {
                assert(self@ =~= Map::empty());
            } else {
                self.lemma_entry(0);
            }
        }
        empty
    }

    /// The position of `key` and `true`, or the position at which it would have to be inserted
    /// and `false`.
    fn position(&self, key: &K) -> (found: (usize, bool))
        requires
            self.wf(),
        ensures
            found.0 <= self.entries@.len(),
            found.1 ==> found.0 < self.entries@.len() && self.entries@[found.0 as int].0.model()
                == key.model(),
            !found.1 ==> {
                &&& forall|i: int|
                    0 <= i < found.0 ==> K::before(
                        #[trigger] self.entries@[i].0.model(),
                        key.model(),
                    )
                &&& forall|i: int|
                    found.0 <= i < self.entries@.len() ==> K::before(
                        key.model(),
                        #[trigger] self.entries@[i].0.model(),
                    )
            },
    {
        let mut low: usize = 0;
        let mut high: usize = self.entries.len();
        while low < high
            invariant
                self.wf(),
                low <= high <= self.entries@.len(),
                forall|i: int|
                    0 <= i < low ==> K::before(#[trigger] self.entries@[i].0.model(), key.model()),
                forall|i: int|
                    high <= i < self.entries@.len() ==> K::before(
                        key.model(),
                        #[trigger] self.entries@[i].0.model(),
                    ),
            decreases high - low,
        {
            let mid: usize = low + (high - low) / 2;
            let ghost m = self.entries@[mid as int].0.model();
            match self.entries[mid].0.rank(key) {
                Rank::Same => {
                    return (mid, true);
                },
                Rank::Before => {
                    assert forall|i: int| 0 <= i < mid + 1 implies K::before(
                        #[trigger] self.entries@[i].0.model(),
                        key.model(),
                    ) by {
                        if i < mid {
                            let _ = (self.entries@[i], self.entries@[mid as int]);
                            K::before_chains(self.entries@[i].0.model(), m, key.model());
                        }
                    }
                    low = mid + 1;
                },
                Rank::After => {
                    assert forall|i: int| mid <= i < self.entries@.len() implies K::before(
                        key.model(),
                        #[trigger] self.entries@[i].0.model(),
                    ) by {
                        if mid < i {
                            let _ = (self.entries@[mid as int], self.entries@[i]);
                            K::before_chains(key.model(), m, self.entries@[i].0.model());
                        }
                    }
                    high = mid;
                },
            }
        }
        (low, false)
    }

    /// The value of `key`.
    pub fn get(&self, key: &K) -> (value: Option<&V>)
        requires
            self.wf(),
        ensures
            match value {
                Some(v) => self@.contains_key(key.model()) && *v == self@[key.model()],
                None => !self@.contains_key(key.model()),
            },
    {
        let (at, present): (usize, bool) = self.position(key);
        if present {
            proof {
                self.lemma_entry(at as int);
            }
            Some(&self.entries[at].1)
        } else {
            proof {
                self.lemma_absent(key.model(), at as int);
            }
            None
        }
    }

    /// The value of `key`, to be changed in place.
    pub fn get_mut(&mut self, key: &K) -> (value: Option<&mut V>)
        requires
            old(self).wf(),
        ensures
            final(self).wf(),
            match value {
                Some(v) => {
                    &&& old(self)@.contains_key(key.model())
                    &&& *v == old(self)@[key.model()]
                    &&& final(self)@ == old(self)@.insert(key.model(), *final(v))
                },
                None => {
                    &&& !old(self)@.contains_key(key.model())
                    &&& final(self)@ == old(self)@
                },
            },
    {
        let (at, present): (usize, bool) = self.position(key);
        if present {
            proof {
                self.lemma_entry(at as int);
            }
            let ghost after = *final(self);
            let slot = &mut self.entries[at].1;
            proof {
                lemma_updated(*old(self), after, at as int);
            }
            Some(slot)
        } else {
            proof {
                self.lemma_absent(key.model(), at as int);
            }
            None
        }
    }

    /// Puts `value` under `key` and hands back what stood there.
    pub fn insert(&mut self, key: K, value: V) -> (former: Option<V>)
        requires
            old(self).wf(),
        ensures
            final(self).wf(),
            final(self)@ == old(self)@.insert(key.model(), value),
            former == (if old(self)@.contains_key(key.model()) {
                Some(old(self)@[key.model()])
            } else {
                None
            }),
    {
        let (at, present): (usize, bool) = self.position(&key);
        let ghost before = *self;
        let ghost k = key.model();
        if present {
            proof {
                self.lemma_entry(at as int);
            }
            let mut value = value;
            std::mem::swap(&mut self.entries[at].1, &mut value);
            proof {
                lemma_updated(before, *self, at as int);
            }
            Some(value)
        } else {
            proof {
                self.lemma_absent(k, at as int);
            }
            self.entries.insert(at, (key, value));
            proof {
                lemma_inserted(before, *self, at as int);
            }
            None
        }
    }

    /// Takes `key` out and hands back its value.
    pub fn remove(&mut self, key: &K) -> (former: Option<V>)
        requires
            old(self).wf(),
        ensures
            final(self).wf(),
            final(self)@ == old(self)@.remove(key.model()),
            former == (if old(self)@.contains_key(key.model()) {
                Some(old(self)@[key.model()])
            } else {
                None
            }),
    {
        let (at, present): (usize, bool) = self.position(key);
        if present {
            let ghost before = *self;
            proof {
                self.lemma_entry(at as int);
            }
            let (_, value) = self.entries.remove(at);
            proof {
                lemma_removed(before, *self, at as int);
            }
            Some(value)
        } else {
            proof {
                self.lemma_absent(key.model(), at as int);
                assert(self@.remove(key.model()) =~= self@);
            }
            None
        }
    }

    /// Takes every key out.
    pub fn clear(&mut self)
        ensures
            final(self).wf(),
            final(self)@ == Map::<K::Model, V>::empty(),
    {
        self.entries.clear();
        assert(self@ =~= Map::empty());
    }

    /// The entry at position `at` of the stored order.
    pub fn entry(&self, at: usize) -> (entry: (&K, &V))
        requires
            self.wf(),
            at < self.key_order().len(),
        ensures
            entry.0.model() == self.key_order()[at as int],
            self@.contains_key(entry.0.model()),
            *entry.1 == self@[entry.0.model()],
    {
        proof {
            self.lemma_entry(at as int);
        }
        let pair = &self.entries[at];
        (&pair.0, &pair.1)
    }
}

proof fn lemma_updated<K: Key, V>(before: KeyMap<K, V>, after: KeyMap<K, V>, at: int)
    requires
        before.wf(),
        0 <= at < before.entries@.len(),
        after.entries@.len() == before.entries@.len(),
        forall|i: int|
            0 <= i < before.entries@.len() && i != at ==> after.entries@[i] == before.entries@[i],
        after.entries@[at].0 == before.entries@[at].0,
    ensures
        after.wf(),
        after@ == before@.insert(before.entries@[at].0.model(), after.entries@[at].1),
{
    assert forall|i: int, j: int|
        #![trigger after.entries@[i], after.entries@[j]]
        0 <= i < j < after.entries@.len() implies K::before(
        after.entries@[i].0.model(),
        after.entries@[j].0.model(),
    ) by {
        let _ = (before.entries@[i], before.entries@[j]);
    }
    let k = before.entries@[at].0.model();
    let expected = before@.insert(k, after.entries@[at].1);
    after.lemma_entry(at);
    before.lemma_entry(at);
    assert forall|x: K::Model| after@.contains_key(x) <==> expected.contains_key(x) by {
        if after@.contains_key(x) {
            let i = choose|i: int| after.holds_at(x, i);
            assert(before.holds_at(x, i));
        }
        if before@.contains_key(x) {
            let i = choose|i: int| before.holds_at(x, i);
            assert(after.holds_at(x, i));
        }
    }
    assert forall|x: K::Model| after@.contains_key(x) implies after@[x] == expected[x] by {
        let i = choose|i: int| after.holds_at(x, i);
        after.lemma_entry(i);
        before.lemma_entry(i);
        before.lemma_unique(i, at);
    }
    assert(after@ =~= expected);
}

proof fn lemma_inserted<K: Key, V>(before: KeyMap<K, V>, after: KeyMap<K, V>, at: int)
    requires
        before.wf(),
        0 <= at <= before.entries@.len(),
        after.entries@.len() == before.entries@.len() + 1,
        after.entries@ == before.entries@.insert(at, after.entries@[at]),
        forall|i: int|
            0 <= i < at ==> K::before(
                #[trigger] before.entries@[i].0.model(),
                after.entries@[at].0.model(),
            ),
        forall|i: int|
            at <= i < before.entries@.len() ==> K::before(
                after.entries@[at].0.model(),
                #[trigger] before.entries@[i].0.model(),
            ),
    ensures
        after.wf(),
        after@ == before@.insert(after.entries@[at].0.model(), after.entries@[at].1),
{
    assert forall|i: int, j: int|
        #![trigger after.entries@[i], after.entries@[j]]
        0 <= i < j < after.entries@.len() implies K::before(
        after.entries@[i].0.model(),
        after.entries@[j].0.model(),
    ) by {
        let i0 = if i < at { i } else { i - 1 };
        let j0 = if j < at { j } else { j - 1 };
        if i != at {
            assert(after.entries@[i] == before.entries@[i0]);
        }
        if j != at {
            assert(after.entries@[j] == before.entries@[j0]);
        }
    }
    let k = after.entries@[at].0.model();
    let expected = before@.insert(k, after.entries@[at].1);
    after.lemma_entry(at);
    assert forall|x: K::Model| after@.contains_key(x) <==> expected.contains_key(x) by {
        if after@.contains_key(x) && x != k {
            let i = choose|i: int| after.holds_at(x, i);
            let i0 = if i < at { i } else { i - 1 };
            assert(before.holds_at(x, i0));
        }
        if before@.contains_key(x) {
            let i = choose|i: int| before.holds_at(x, i);
            let i1 = if i < at { i } else { i + 1 };
            assert(after.entries@[i1] == before.entries@[i]);
            assert(after.holds_at(x, i1));
        }
    }
    assert forall|x: K::Model| after@.contains_key(x) implies after@[x] == expected[x] by {
        let i = choose|i: int| after.holds_at(x, i);
        after.lemma_entry(i);
        if i != at {
            let i0 = if i < at { i } else { i - 1 };
            assert(after.entries@[i] == before.entries@[i0]);
            before.lemma_entry(i0);
            after.lemma_unique(i, at);
        }
    }
    assert(after@ =~= expected);
}

proof fn lemma_removed<K: Key, V>(before: KeyMap<K, V>, after: KeyMap<K, V>, at: int)
    requires
        before.wf(),
        0 <= at < before.entries@.len(),
        after.entries@ == before.entries@.remove(at),
    ensures
        after.wf(),
        after@ == before@.remove(before.entries@[at].0.model()),
{
    assert forall|i: int, j: int|
        #![trigger after.entries@[i], after.entries@[j]]
        0 <= i < j < after.entries@.len() implies K::before(
        after.entries@[i].0.model(),
        after.entries@[j].0.model(),
    ) by {
        let i0 = if i < at { i } else { i + 1 };
        let j0 = if j < at { j } else { j + 1 };
        assert(after.entries@[i] == before.entries@[i0]);
        assert(after.entries@[j] == before.entries@[j0]);
    }
    let k = before.entries@[at].0.model();
    let expected = before@.remove(k);
    assert forall|x: K::Model| after@.contains_key(x) <==> expected.contains_key(x) by {
        if after@.contains_key(x) {
            let i = choose|i: int| after.holds_at(x, i);
            let i0 = if i < at { i } else { i + 1 };
            assert(before.holds_at(x, i0));
            before.lemma_unique(i0, at);
        }
        if before@.contains_key(x) && x != k {
            let i = choose|i: int| before.holds_at(x, i);
            let i1 = if i < at { i } else { i - 1 };
            assert(after.holds_at(x, i1));
        }
    }
    assert forall|x: K::Model| after@.contains_key(x) implies after@[x] == expected[x] by {
        let i = choose|i: int| after.holds_at(x, i);
        let i0 = if i < at { i } else { i + 1 };
        assert(after.entries@[i] == before.entries@[i0]);
        after.lemma_entry(i);
        before.lemma_entry(i0);
        before.lemma_unique(i0, at);
    }
    assert(after@ =~= expected);
}

} // verus!
