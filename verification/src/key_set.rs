//! A set kept in the order of its keys.
use crate::key_map::KeyMap;
use crate::order::Key;
use crate::primitives::{Address, B256};
use vstd::prelude::*;

verus! {

/// A finite set of keys.
#[verifier::reject_recursive_types(K)]
#[derive(Debug)]
pub struct KeySet<K: Key> {
    keys: KeyMap<K, ()>,
}

impl<K: Key> View for KeySet<K> {
    type V = Set<K::Model>;

    closed spec fn view(&self) -> Set<K::Model> {
        self.keys@.dom()
    }
}

impl<K: Key> KeySet<K> {
    /// The keys are stored in order.
    pub closed spec fn wf(&self) -> bool {
        self.keys.wf()
    }

    /// The keys in the order in which they are stored.
    pub closed spec fn key_order(&self) -> Seq<K::Model> {
        self.keys.key_order()
    }

    /// The stored keys are the members of the set, each once.
    pub proof fn lemma_key_order(&self)
        requires
            self.wf(),
        ensures
            self.key_order().no_duplicates(),
            self.key_order().to_set() == self@,
    {
        self.keys.lemma_key_order();
        assert(self.key_order().to_set() =~= self@) by {
            assert forall|k: K::Model| self.key_order().to_set().contains(k) <==> self@.contains(
                k,
            ) by {
                assert(self.keys.key_order().contains(k) <==> self.keys@.contains_key(k));
            }
        }
    }

    /// The empty set.
    pub fn new() -> (set: Self)
        ensures
            set.wf(),
            set@ == Set::<K::Model>::empty(),
    {
        let set = KeySet { keys: KeyMap::new() };
        assert(set@ =~= Set::empty());
        set
    }

    /// The number of members.
    pub fn len(&self) -> (len: usize)
        requires
            self.wf(),
        ensures
            len == self.key_order().len(),
    {
        self.keys.len()
    }

    /// Whether the set has no member.
    pub fn is_empty(&self) -> (empty: bool)
        requires
            self.wf(),
        ensures
            empty == (self@ == Set::<K::Model>::empty()),
    {
        let empty = self.keys.is_empty();
        proof {
            if self@ == Set::<K::Model>::empty() {
                assert(self.keys@ =~= Map::empty());
            } else if empty {
                assert(self@ =~= Set::empty());
            }
        }
        empty
    }

    /// Whether `key` is a member.
    pub fn contains(&self, key: &K) -> (member: bool)
        requires
            self.wf(),
        ensures
            member == self@.contains(key.model()),
    {
        self.keys.get(key).is_some()
    }

    /// Adds `key`.
    pub fn insert(&mut self, key: K)
        requires
            old(self).wf(),
        ensures
            final(self).wf(),
            final(self)@ == old(self)@.insert(key.model()),
    {
        let _ = self.keys.insert(key, ());
        assert(self@ =~= old(self)@.insert(key.model()));
    }

    /// Takes `key` out.
    pub fn remove(&mut self, key: &K)
        requires
            old(self).wf(),
        ensures
            final(self).wf(),
            final(self)@ == old(self)@.remove(key.model()),
    {
        let _ = self.keys.remove(key);
        assert(self@ =~= old(self)@.remove(key.model()));
    }

    /// The member at position `at` of the stored order.
    pub fn member(&self, at: usize) -> (key: &K)
        requires
            self.wf(),
            at < self.key_order().len(),
        ensures
            key.model() == self.key_order()[at as int],
            self@.contains(key.model()),
    {
        self.keys.entry(at).0
    }
}

impl KeySet<Address> {
    /// Adds every address of `other`.
    pub fn insert_all(&mut self, other: &KeySet<Address>)
        requires
            old(self).wf(),
            other.wf(),
        ensures
            final(self).wf(),
            final(self)@ == old(self)@.union(other@),
    {
        let mut i: usize = 0;
        while i < other.len()
            invariant
                self.wf(),
                other.wf(),
                i <= other.key_order().len(),
                self@ == old(self)@.union(other.key_order().take(i as int).to_set()),
            decreases other.key_order().len() - i,
        {
            let address = *other.member(i);
            self.insert(address);
            proof {
                let order = other.key_order();
                assert(order.take(i + 1) =~= order.take(i as int).push(address));
                assert(order.take(i + 1).to_set() =~= order.take(i as int).to_set().insert(
                    address,
                )) by {
                    lemma_push_to_set(order.take(i as int), address);
                }
                assert(self@ =~= old(self)@.union(order.take(i + 1).to_set()));
            }
            i = i + 1;
        }
        proof {
            other.lemma_key_order();
            assert(other.key_order().take(i as int) =~= other.key_order());
        }
    }

    /// The members as a list.
    pub fn to_vec(&self) -> (list: Vec<Address>)
        requires
            self.wf(),
        ensures
            list@.no_duplicates(),
            list@.to_set() == self@,
    {
        let mut list: Vec<Address> = Vec::new();
        let mut i: usize = 0;
        while i < self.len()
            invariant
                self.wf(),
                i <= self.key_order().len(),
                list@ == self.key_order().take(i as int),
            decreases self.key_order().len() - i,
        {
            let address = *self.member(i);
            list.push(address);
            assert(self.key_order().take(i + 1) =~= self.key_order().take(i as int).push(address));
            i = i + 1;
        }
        proof {
            self.lemma_key_order();
            assert(list@ =~= self.key_order());
        }
        list
    }
}

impl KeySet<B256> {
    /// The members as a list.
    pub fn to_vec(&self) -> (list: Vec<B256>)
        requires
            self.wf(),
        ensures
            list@.no_duplicates(),
            list@.to_set() == self@,
    {
        let mut list: Vec<B256> = Vec::new();
        let mut i: usize = 0;
        while i < self.len()
            invariant
                self.wf(),
                i <= self.key_order().len(),
                list@ == self.key_order().take(i as int),
            decreases self.key_order().len() - i,
        {
            let word = *self.member(i);
            list.push(word);
            assert(self.key_order().take(i + 1) =~= self.key_order().take(i as int).push(word));
            i = i + 1;
        }
        proof {
            self.lemma_key_order();
            assert(list@ =~= self.key_order());
        }
        list
    }
}

/// What the strings of a list hold.
pub open spec fn text_views(texts: Seq<String>) -> Seq<Seq<char>> {
    texts.map_values(|text: String| text@)
}

impl KeySet<String> {
    /// The members as a list.
    pub fn to_vec(&self) -> (list: Vec<String>)
        requires
            self.wf(),
        ensures
            text_views(list@).no_duplicates(),
            text_views(list@).to_set() == self@,
    {
        let mut list: Vec<String> = Vec::new();
        let mut i: usize = 0;
        assert(text_views(list@) =~= self.key_order().take(0));
        while i < self.len()
            invariant
                self.wf(),
                i <= self.key_order().len(),
                text_views(list@) == self.key_order().take(i as int),
            decreases self.key_order().len() - i,
        {
            let text = self.member(i).clone();
            let ghost before = list@;
            list.push(text);
            proof {
                assert(text_views(list@) =~= text_views(before).push(text@));
                assert(self.key_order().take(i + 1) =~= self.key_order().take(i as int).push(
                    text@,
                ));
            }
            i = i + 1;
        }
        proof {
            self.lemma_key_order();
            assert(text_views(list@) =~= self.key_order());
        }
        list
    }
}

/// Appending to a list adds the new element to the set of its elements.
pub proof fn lemma_push_to_set<A>(list: Seq<A>, last: A)
    ensures
        list.push(last).to_set() == list.to_set().insert(last),
{
    let longer = list.push(last);
    assert forall|x: A| longer.to_set().contains(x) <==> list.to_set().insert(last).contains(x) by {
        if list.contains(x) {
            let i = list.index_of(x);
            assert(longer[i] == x);
        }
        assert(longer[list.len() as int] == last);
        if longer.contains(x) {
            let i = longer.index_of(x);
            if i < list.len() {
                assert(list[i] == x);
            }
        }
    }
    assert(longer.to_set() =~= list.to_set().insert(last));
}

} // verus!
