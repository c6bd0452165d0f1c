//! Which pools trade a token or a pair of tokens.
use crate::key_map::KeyMap;
use crate::key_set::{lemma_push_to_set, KeySet};
use crate::order::Key;
use crate::primitives::Address;
use vstd::prelude::*;

verus! {

/// The pools filed under `key`; none where the key is absent.
pub open spec fn pools_under<M>(index: Map<M, Set<Address>>, key: M) -> Set<Address> {
    if index.contains_key(key) {
        index[key]
    } else {
        Set::empty()
    }
}

/// `pools` holds at most `pool`.
pub open spec fn only_pool(pools: Set<Address>, pool: Address) -> bool {
    forall|a: Address| pools.contains(a) ==> a == pool
}

/// `index` with `pool` filed under each of `keys` as well.
pub open spec fn linked<M>(
    index: Map<M, Set<Address>>,
    keys: Set<M>,
    pool: Address,
) -> Map<M, Set<Address>> {
    Map::new(
        |k: M| index.contains_key(k) || keys.contains(k),
        |k: M|
            if keys.contains(k) {
                pools_under(index, k).insert(pool)
            } else {
                index[k]
            },
    )
}

/// `index` with `pool` taken from each of `keys`; a key that this leaves without any pool goes
/// too.
pub open spec fn unlinked<M>(
    index: Map<M, Set<Address>>,
    keys: Set<M>,
    pool: Address,
) -> Map<M, Set<Address>> {
    Map::new(
        |k: M| index.contains_key(k) && !(keys.contains(k) && only_pool(index[k], pool)),
        |k: M|
            if keys.contains(k) {
                index[k].remove(pool)
            } else {
                index[k]
            },
    )
}

/// What each of several keys stands for.
pub open spec fn models<K: Key>(keys: Seq<K>) -> Seq<K::Model> {
    keys.map_values(|key: K| key.model())
}

/// Filing a pool under no key at all changes nothing, nor does taking it from none.
pub proof fn lemma_linked_none<M>(index: Map<M, Set<Address>>, pool: Address)
    ensures
        linked(index, Set::empty(), pool) == index,
        unlinked(index, Set::empty(), pool) == index,
{
    assert(linked(index, Set::empty(), pool) =~= index);
    assert(unlinked(index, Set::empty(), pool) =~= index);
}

/// Filing a pool under one set of keys and then another is filing it under their union.
proof fn lemma_linked_twice<M>(
    index: Map<M, Set<Address>>,
    first: Set<M>,
    second: Set<M>,
    pool: Address,
)
    ensures
        linked(linked(index, first, pool), second, pool) == linked(
            index,
            first.union(second),
            pool,
        ),
{
    let left = linked(linked(index, first, pool), second, pool);
    let right = linked(index, first.union(second), pool);
    assert forall|k: M| left.contains_key(k) implies left[k] == right[k] by {
        assert(left[k] =~= right[k]);
    }
    assert(left =~= right);
}

/// Taking a pool from one set of keys and then another is taking it from their union.
proof fn lemma_unlinked_twice<M>(
    index: Map<M, Set<Address>>,
    first: Set<M>,
    second: Set<M>,
    pool: Address,
)
    ensures
        unlinked(unlinked(index, first, pool), second, pool) == unlinked(
            index,
            first.union(second),
            pool,
        ),
{
    let middle = unlinked(index, first, pool);
    let left = unlinked(middle, second, pool);
    let right = unlinked(index, first.union(second), pool);
    assert forall|k: M| left.contains_key(k) <==> right.contains_key(k) by {
        if index.contains_key(k) && first.contains(k) && second.contains(k) && !only_pool(
            index[k],
            pool,
        ) {
            let other = choose|a: Address| index[k].contains(a) && a != pool;
            assert(middle[k].contains(other));
        }
    }
    assert forall|k: M| left.contains_key(k) implies left[k] == right[k] by {
        assert(left[k] =~= right[k]);
    }
    assert(left =~= right);
}

/// An index from keys to sets of pools.
#[verifier::reject_recursive_types(K)]
#[derive(Debug)]
pub struct PoolIndex<K: Key> {
    pools: KeyMap<K, KeySet<Address>>,
}

impl<K: Key> View for PoolIndex<K> {
    type V = Map<K::Model, Set<Address>>;

    closed spec fn view(&self) -> Map<K::Model, Set<Address>> {
        self.pools@.map_values(|set: KeySet<Address>| set@)
    }
}

impl<K: Key> PoolIndex<K> {
    /// The index and all of its sets are stored in order.
    pub closed spec fn wf(&self) -> bool {
        &&& self.pools.wf()
        &&& forall|k: K::Model| #[trigger] self.pools@.contains_key(k) ==> self.pools@[k].wf()
    }

    /// An index without keys.
    pub fn new() -> (index: Self)
        ensures
            index.wf(),
            index@ == Map::<K::Model, Set<Address>>::empty(),
    {
        let index = PoolIndex { pools: KeyMap::new() };
        assert(index@ =~= Map::empty());
        index
    }

    /// Takes every key out.
    pub fn clear(&mut self)
        ensures
            final(self).wf(),
            final(self)@ == Map::<K::Model, Set<Address>>::empty(),
    {
        self.pools.clear();
        assert(self@ =~= Map::empty());
    }

    /// The number of keys.
    pub fn len(&self) -> (len: usize)
        requires
            self.wf(),
        ensures
            exists|order: Seq<K::Model>|
                order.no_duplicates() && order.to_set() == self@.dom() && order.len() == len,
    {
        proof {
            self.pools.lemma_key_order();
            let order = self.pools.key_order();
            assert(order.to_set() =~= self@.dom()) by {
                assert forall|k: K::Model| order.to_set().contains(k) <==> self@.dom().contains(
                    k,
                ) by {
                    assert(order.contains(k) <==> self.pools@.contains_key(k));
                }
            }
        }
        self.pools.len()
    }

    /// The set filed under `key`, if there is one.
    pub fn get(&self, key: &K) -> (pools: Option<&KeySet<Address>>)
        requires
            self.wf(),
        ensures
            match pools {
                Some(set) => self@.contains_key(key.model()) && set.wf() && set@
                    == self@[key.model()],
                None => !self@.contains_key(key.model()),
            },
    {
        self.pools.get(key)
    }

    /// Files `pool` under `key`.
    pub fn link(&mut self, key: K, pool: Address)
        requires
            old(self).wf(),
        ensures
            final(self).wf(),
            final(self)@ == linked(old(self)@, Set::empty().insert(key.model()), pool),
    {
        let ghost k = key.model();
        let mut set = match self.pools.remove(&key) {
            Some(set) => set,
            None => KeySet::new(),
        };
        assert(set@ == pools_under(old(self)@, k));
        set.insert(pool);
        let _ = self.pools.insert(key, set);
        proof {
            let expected = linked(old(self)@, Set::empty().insert(k), pool);
            assert(self@ =~= expected);
        }
    }

    /// Takes `pool` from `key`, and `key` from the index if no pool is left there.
    pub fn unlink(&mut self, key: &K, pool: &Address)
        requires
            old(self).wf(),
        ensures
            final(self).wf(),
            final(self)@ == unlinked(old(self)@, Set::empty().insert(key.model()), *pool),
    {
        let ghost k = key.model();
        let ghost expected = unlinked(old(self)@, Set::empty().insert(k), *pool);
        let emptied = match self.pools.get_mut(key) {
            Some(set) => {
                set.remove(pool);
                set.is_empty()
            },
            None => {
                false
            },
        };
        if emptied {
            let _ = self.pools.remove(key);
        }
        proof {
            if old(self)@.contains_key(k) {
                let before = old(self)@[k];
                assert(only_pool(before, *pool) <==> before.remove(*pool) == Set::<
                    Address,
                >::empty()) by {
                    if only_pool(before, *pool) {
                        assert(before.remove(*pool) =~= Set::empty());
                    }
                    if before.remove(*pool) == Set::<Address>::empty() {
                        assert forall|a: Address| before.contains(a) implies a == *pool by {
                            if a != *pool {
                                assert(before.remove(*pool).contains(a));
                            }
                        }
                    }
                }
            }
            assert(self@ =~= expected);
        }
    }

    /// Files `pool` under each of `keys`.
    pub fn link_all(&mut self, keys: Vec<K>, pool: Address)
        requires
            old(self).wf(),
        ensures
            final(self).wf(),
            final(self)@ == linked(old(self)@, models(keys@).to_set(), pool),
    {
        let ghost index = self@;
        let ghost words = models(keys@);
        let ghost all = keys@;
        proof {
            lemma_linked_none(index, pool);
            assert(words.take(0).to_set() =~= Set::empty());
        }
        for key in iter: keys
            invariant
                self.wf(),
                iter.seq() == all,
                words == models(all),
                self@ == linked(index, words.take(iter.index()).to_set(), pool),
        {
            let ghost i = iter.index();
            let ghost word = key.model();
            self.link(key, pool);
            proof {
                let first = words.take(i).to_set();
                lemma_linked_twice(index, first, Set::empty().insert(word), pool);
                assert(words[i] == word);
                assert(words.take(i + 1) =~= words.take(i).push(word));
                lemma_push_to_set(words.take(i), word);
                assert(first.union(Set::empty().insert(word)) =~= words.take(i + 1).to_set());
            }
        }
        assert(words.take(words.len() as int) =~= words);
    }

    /// Takes `pool` from each of `keys`, and each of them from the index if no pool is left there.
    pub fn unlink_all(&mut self, keys: &Vec<K>, pool: &Address)
        requires
            old(self).wf(),
        ensures
            final(self).wf(),
            final(self)@ == unlinked(old(self)@, models(keys@).to_set(), *pool),
    {
        let ghost index = self@;
        let ghost words = models(keys@);
        proof {
            lemma_linked_none(index, *pool);
            assert(words.take(0).to_set() =~= Set::empty());
        }
        let mut i: usize = 0;
        while i < keys.len()
            invariant
                self.wf(),
                i <= keys@.len(),
                words == models(keys@),
                self@ == unlinked(index, words.take(i as int).to_set(), *pool),
            decreases keys@.len() - i,
        {
            let ghost word = keys@[i as int].model();
            self.unlink(&keys[i], pool);
            proof {
                let first = words.take(i as int).to_set();
                lemma_unlinked_twice(index, first, Set::empty().insert(word), *pool);
                assert(words[i as int] == word);
                assert(words.take(i + 1) =~= words.take(i as int).push(word));
                lemma_push_to_set(words.take(i as int), word);
                assert(first.union(Set::empty().insert(word)) =~= words.take(i + 1).to_set());
            }
            i = i + 1;
        }
        assert(words.take(i as int) =~= words);
    }
}

} // verus!
