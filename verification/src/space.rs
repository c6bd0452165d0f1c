//! The state space: every pool that is followed, and the indexes to route through them.
use crate::amm::{AmmView, Pool, AMM};
use crate::cache::{StateChangeCache, StateChangeView};
use crate::index::{lemma_linked_none, linked, models, pools_under, unlinked, PoolIndex};
use crate::key_map::KeyMap;
use crate::key_set::{lemma_push_to_set, text_views, KeySet};
use crate::primitives::{address_text, debug_text, Address};
use crate::text::{lower, to_lowercase};
use vstd::prelude::*;

verus! {

/// How many blocks of changes are kept to be undone.
pub const CACHE_SIZE: usize = 30;

/// All pools that are followed, by address.
#[derive(Debug)]
pub struct StateSpace {
    pub state: KeyMap<Address, AMM>,
    /// The latest block that has been applied, as whoever follows the chain sets it.
    pub latest_block: u64,
    pub cache: StateChangeCache<CACHE_SIZE>,
    /// The pools that trade a token, by the token's address in lower case.
    pub token_to_pools: PoolIndex<String>,
    /// The pools that trade a pair of tokens, by both addresses in lower case, in either order.
    pub token_pair_to_pools: PoolIndex<(String, String)>,
}

/// What a [`StateSpace`] stands for.
#[verifier::ext_equal]
pub struct SpaceView {
    pub state: Map<Address, AmmView>,
    pub latest_block: u64,
    pub cache: Seq<StateChangeView>,
    pub token_to_pools: Map<Seq<char>, Set<Address>>,
    pub token_pair_to_pools: Map<(Seq<char>, Seq<char>), Set<Address>>,
}

impl View for StateSpace {
    type V = SpaceView;

    open spec fn view(&self) -> SpaceView {
        SpaceView {
            state: self.state@.map_values(|amm: AMM| amm@),
            latest_block: self.latest_block,
            cache: self.cache@,
            token_to_pools: self.token_to_pools@,
            token_pair_to_pools: self.token_pair_to_pools@,
        }
    }
}

/// The key of a token in the indexes.
pub open spec fn token_key(token: Address) -> Seq<char> {
    lower(address_text(token))
}

/// The keys of the tokens of a pool, in the pool's order.
pub open spec fn token_keys(amm: AmmView) -> Seq<Seq<char>> {
    amm.tokens().map_values(|token: Address| token_key(token))
}

/// The pairs of two keys at different positions.
pub open spec fn pairs_of(keys: Seq<Seq<char>>) -> Set<(Seq<char>, Seq<char>)> {
    Set::new(
        |pair: (Seq<char>, Seq<char>)|
            exists|i: int, j: int|
                0 <= i < keys.len() && 0 <= j < keys.len() && i != j && pair == (
                    #[trigger] keys[i],
                    #[trigger] keys[j],
                ),
    )
}

/// The pairs under which a pool is filed: any two of its tokens, in either order.
pub open spec fn pair_keys(amm: AmmView) -> Set<(Seq<char>, Seq<char>)> {
    pairs_of(token_keys(amm))
}

impl SpaceView {
    /// Nothing held, nothing indexed, nothing remembered.
    pub open spec fn empty() -> SpaceView {
        SpaceView {
            state: Map::empty(),
            latest_block: 0,
            cache: Seq::empty(),
            token_to_pools: Map::empty(),
            token_pair_to_pools: Map::empty(),
        }
    }

    /// `pool` filed under the tokens of `amm`, provided it holds enough.
    pub open spec fn indexed(self, pool: Address, amm: AmmView) -> SpaceView {
        if amm.meets_minimum_requirements() {
            SpaceView {
                token_to_pools: linked(self.token_to_pools, token_keys(amm).to_set(), pool),
                token_pair_to_pools: linked(self.token_pair_to_pools, pair_keys(amm), pool),
                ..self
            }
        } else {
            self
        }
    }

    /// `pool` no longer filed under the tokens of `amm`.
    pub open spec fn unindexed(self, pool: Address, amm: AmmView) -> SpaceView {
        SpaceView {
            token_to_pools: unlinked(self.token_to_pools, token_keys(amm).to_set(), pool),
            token_pair_to_pools: unlinked(self.token_pair_to_pools, pair_keys(amm), pool),
            ..self
        }
    }

    /// `amm` held under `pool`, whatever the indexes say.
    pub open spec fn held(self, pool: Address, amm: AmmView) -> SpaceView {
        SpaceView { state: self.state.insert(pool, amm), ..self }
    }

    /// `pool` no longer filed under the tokens that it is held with, if it is held.
    pub open spec fn withdrawn(self, pool: Address) -> SpaceView {
        if self.state.contains_key(pool) {
            self.unindexed(pool, self.state[pool])
        } else {
            self
        }
    }

    /// `amm` in place of what was held under `pool`, in the state and in the indexes.
    pub open spec fn replaced(self, pool: Address, amm: AmmView) -> SpaceView {
        self.withdrawn(pool).held(pool, amm).indexed(pool, amm)
    }

    /// `pool` gone from the state and from the indexes.
    pub open spec fn dropped(self, pool: Address) -> SpaceView {
        let withdrawn = self.withdrawn(pool);
        SpaceView { state: withdrawn.state.remove(pool), ..withdrawn }
    }

    /// The indexes hold every pool that is held and holds enough, under its own tokens, and
    /// nothing else.
    pub open spec fn is_in_step(self) -> bool {
        &&& self.token_to_pools == token_index_of(self.state)
        &&& self.token_pair_to_pools == pair_index_of(self.state)
    }

    /// The pools that a lookup of a token finds.
    pub open spec fn pools_by_token(self, token: Seq<char>) -> Set<Address> {
        pools_under(self.token_to_pools, lower(token))
    }

    /// The pools that a lookup of a pair of tokens finds.
    pub open spec fn pools_by_pair(self, token_a: Seq<char>, token_b: Seq<char>) -> Set<Address> {
        pools_under(self.token_pair_to_pools, (lower(token_a), lower(token_b))).union(
            pools_under(self.token_pair_to_pools, (lower(token_b), lower(token_a))),
        )
    }

    /// The tokens that share a pool with a token.
    pub open spec fn connected_to(self, token: Seq<char>) -> Set<Seq<char>> {
        self.tokens_beside(lower(token), self.pools_by_token(token))
    }

    /// The tokens other than `key` in the pools of `pools` that are held.
    pub open spec fn tokens_beside(self, key: Seq<char>, pools: Set<Address>) -> Set<Seq<char>> {
        Set::new(
            |token: Seq<char>|
                token != key && exists|pool: Address|
                    #![trigger pools.contains(pool)]
                    pools.contains(pool) && self.state.contains_key(pool) && token_keys(
                        self.state[pool],
                    ).contains(token),
        )
    }
}

/// The keys of the token index under which a pool belongs.
pub open spec fn proper_token_keys(amm: AmmView) -> Set<Seq<char>> {
    if amm.meets_minimum_requirements() {
        token_keys(amm).to_set()
    } else {
        Set::empty()
    }
}

/// The keys of the pair index under which a pool belongs.
pub open spec fn proper_pair_keys(amm: AmmView) -> Set<(Seq<char>, Seq<char>)> {
    if amm.meets_minimum_requirements() {
        pair_keys(amm)
    } else {
        Set::empty()
    }
}

/// The index in which every pool of `state` is filed under its keys, and no other.
pub open spec fn index_of_state<M>(
    state: Map<Address, AmmView>,
    keys: spec_fn(AmmView) -> Set<M>,
) -> Map<M, Set<Address>> {
    Map::new(
        |k: M| exists|a: Address| #[trigger] state.contains_key(a) && keys(state[a]).contains(k),
        |k: M| Set::new(|a: Address| state.contains_key(a) && keys(state[a]).contains(k)),
    )
}

/// The token index that `state` calls for.
pub open spec fn token_index_of(state: Map<Address, AmmView>) -> Map<Seq<char>, Set<Address>> {
    index_of_state(state, |amm: AmmView| proper_token_keys(amm))
}

/// The pair index that `state` calls for.
pub open spec fn pair_index_of(state: Map<Address, AmmView>) -> Map<
    (Seq<char>, Seq<char>),
    Set<Address>,
> {
    index_of_state(state, |amm: AmmView| proper_pair_keys(amm))
}

/// Holding `amm` under `pool` calls for linking it, if nothing else of the pool is to go.
pub proof fn lemma_index_of_insert<M>(
    state: Map<Address, AmmView>,
    keys: spec_fn(AmmView) -> Set<M>,
    pool: Address,
    amm: AmmView,
)
    requires
        state.contains_key(pool) ==> keys(state[pool]).subset_of(keys(amm)),
    ensures
        index_of_state(state.insert(pool, amm), keys) == linked(
            index_of_state(state, keys),
            keys(amm),
            pool,
        ),
{
    let after = state.insert(pool, amm);
    let left = index_of_state(after, keys);
    let before = index_of_state(state, keys);
    let right = linked(before, keys(amm), pool);
    assert forall|k: M| left.contains_key(k) <==> right.contains_key(k) by {
        if left.contains_key(k) && !keys(amm).contains(k) {
            let a = choose|a: Address| #[trigger] after.contains_key(a) && keys(after[a]).contains(k);
            assert(state.contains_key(a));
        }
        if keys(amm).contains(k) {
            assert(after.contains_key(pool));
        } else if before.contains_key(k) {
            let a = choose|a: Address| #[trigger] state.contains_key(a) && keys(state[a]).contains(k);
            assert(after.contains_key(a));
        }
    }
    assert forall|k: M| left.contains_key(k) implies left[k] == right[k] by {
        assert forall|a: Address| left[k].contains(a) <==> right[k].contains(a) by {
            if a != pool && state.contains_key(a) && keys(state[a]).contains(k) {
                assert(before.contains_key(k));
            }
        }
        assert(left[k] =~= right[k]);
    }
    assert(left =~= right);
}

/// Letting go of `pool` calls for unlinking it from all of its keys.
pub proof fn lemma_index_of_remove<M>(
    state: Map<Address, AmmView>,
    keys: spec_fn(AmmView) -> Set<M>,
    pool: Address,
    all: Set<M>,
)
    requires
        state.contains_key(pool) ==> keys(state[pool]).subset_of(all),
    ensures
        index_of_state(state.remove(pool), keys) == unlinked(
            index_of_state(state, keys),
            all,
            pool,
        ),
{
    let after = state.remove(pool);
    let left = index_of_state(after, keys);
    let before = index_of_state(state, keys);
    let right = unlinked(before, all, pool);
    assert forall|k: M| left.contains_key(k) <==> right.contains_key(k) by {
        if left.contains_key(k) {
            let a = choose|a: Address| #[trigger] after.contains_key(a) && keys(after[a]).contains(k);
            assert(state.contains_key(a));
            assert(before[k].contains(a));
        }
        if right.contains_key(k) {
            let a = choose|a: Address| #[trigger] state.contains_key(a) && keys(state[a]).contains(k);
            assert(before[k].contains(a));
            if a != pool {
                assert(after.contains_key(a));
            } else if all.contains(k) {
                let b = choose|b: Address| before[k].contains(b) && b != pool;
                assert(after.contains_key(b));
            }
        }
    }
    assert forall|k: M| left.contains_key(k) implies left[k] == right[k] by {
        assert(left[k] =~= right[k]);
    }
    assert(left =~= right);
}

/// What `map_values` does to a map that changes in one place.
pub proof fn lemma_views_of_state(state: Map<Address, AMM>, address: Address, amm: AMM)
    ensures
        state.insert(address, amm).map_values(|a: AMM| a@) == state.map_values(
            |a: AMM| a@,
        ).insert(address, amm@),
        state.remove(address).map_values(|a: AMM| a@) == state.map_values(|a: AMM| a@).remove(
            address,
        ),
{
    assert(state.insert(address, amm).map_values(|a: AMM| a@) =~= state.map_values(
        |a: AMM| a@,
    ).insert(address, amm@));
    assert(state.remove(address).map_values(|a: AMM| a@) =~= state.map_values(
        |a: AMM| a@,
    ).remove(address));
}

impl Default for StateSpace {
    fn default() -> (space: StateSpace)
        ensures
            space.wf(),
            space@ == SpaceView::empty(),
    {
        let space = StateSpace {
            state: KeyMap::new(),
            latest_block: 0,
            cache: StateChangeCache::new(),
            token_to_pools: PoolIndex::new(),
            token_pair_to_pools: PoolIndex::new(),
        };
        assert(space@ =~= SpaceView::empty());
        space
    }
}

impl StateSpace {
    /// Everything is stored in order, and the cache is within its capacity.
    pub open spec fn wf(&self) -> bool {
        &&& self.state.wf()
        &&& self.cache.wf()
        &&& self.token_to_pools.wf()
        &&& self.token_pair_to_pools.wf()
    }

    /// The pool held under `address`.
    pub fn get(&self, address: &Address) -> (amm: Option<&AMM>)
        requires
            self.wf(),
        ensures
            match amm {
                Some(amm) => self@.state.contains_key(*address) && amm@ == self@.state[*address],
                None => !self@.state.contains_key(*address),
            },
    {
        self.state.get(address)
    }

    /// The pool held under `address`, to be changed in place. The indexes are not told.
    pub fn get_mut(&mut self, address: &Address) -> (amm: Option<&mut AMM>)
        requires
            old(self).wf(),
        ensures
            final(self).wf(),
            match amm {
                Some(amm) => {
                    &&& old(self)@.state.contains_key(*address)
                    &&& amm@ == old(self)@.state[*address]
                    &&& final(self)@ == old(self)@.held(*address, final(amm)@)
                },
                None => {
                    &&& !old(self)@.state.contains_key(*address)
                    &&& final(self)@ == old(self)@
                },
            },
    {
        let ghost before = self.state@;
        match self.state.get_mut(address) {
            Some(amm) => {
                proof {
                    lemma_views_of_state(before, *address, *final(amm));
                }
                Some(amm)
            },
            None => None,
        }
    }

    /// All pools that trade a token. The case of the address does not matter.
    pub fn get_pools_by_token(&self, token_address: &str) -> (pools: Vec<Address>)
        requires
            self.wf(),
        ensures
            pools@.no_duplicates(),
            pools@.to_set() == self@.pools_by_token(token_address@),
    {
        match self.token_to_pools.get(&to_lowercase(token_address)) {
            Some(pools) => pools.to_vec(),
            None => {
                let none: Vec<Address> = Vec::new();
                assert(none@.to_set() =~= Set::empty());
                none
            },
        }
    }

    /// All pools that trade a pair of tokens, in either order.
    pub fn get_pools_by_token_pair(&self, token_a: &str, token_b: &str) -> (pools: Vec<Address>)
        requires
            self.wf(),
        ensures
            pools@.no_duplicates(),
            pools@.to_set() == self@.pools_by_pair(token_a@, token_b@),
    {
        let token_a = to_lowercase(token_a);
        let token_b = to_lowercase(token_b);
        let mut pools: KeySet<Address> = KeySet::new();
        let forward = (token_a.clone(), token_b.clone());
        if let Some(found) = self.token_pair_to_pools.get(&forward) {
            pools.insert_all(found);
        }
        assert(pools@ =~= pools_under(self@.token_pair_to_pools, (token_a@, token_b@)));
        let backward = (token_b, token_a);
        let ghost first = pools@;
        if let Some(found) = self.token_pair_to_pools.get(&backward) {
            pools.insert_all(found);
        }
        assert(pools@ =~= first.union(
            pools_under(self@.token_pair_to_pools, (token_b@, token_a@)),
        ));
        pools.to_vec()
    }

    /// All tokens that share a pool with a token.
    pub fn get_connected_tokens(&self, token_address: &str) -> (tokens: Vec<String>)
        requires
            self.wf(),
        ensures
            text_views(tokens@).no_duplicates(),
            text_views(tokens@).to_set() == self@.connected_to(token_address@),
    {
        let token_address = to_lowercase(token_address);
        let ghost key = token_address@;
        let mut connected: KeySet<String> = KeySet::new();
        assert(connected@ =~= self@.tokens_beside(key, Set::empty()));
        if let Some(pools) = self.token_to_pools.get(&token_address) {
            let ghost order = pools.key_order();
            proof {
                pools.lemma_key_order();
                assert(order.take(0).to_set() =~= Set::empty());
            }
            let mut i: usize = 0;
            while i < pools.len()
                invariant
                    self.wf(),
                    pools.wf(),
                    connected.wf(),
                    order == pools.key_order(),
                    key == token_address@,
                    i <= order.len(),
                    connected@ == self@.tokens_beside(key, order.take(i as int).to_set()),
                decreases order.len() - i,
            {
                let pool = pools.member(i);
                let ghost seen = order.take(i as int).to_set();
                proof {
                    assert(order.take(i + 1) =~= order.take(i as int).push(*pool));
                    lemma_push_to_set(order.take(i as int), *pool);
                }
                match self.state.get(pool) {
                    Some(amm) => {
                        self.connect_tokens(&mut connected, amm, &token_address);
                        proof {
                            let more = seen.insert(*pool);
                            let all = self@.tokens_beside(key, more);
                            assert(self@.state[*pool] == amm@);
                            assert forall|token: Seq<char>|
                                connected@.contains(token) <==> all.contains(token) by {
                                if token != key && token_keys(amm@).contains(token) {
                                    assert(more.contains(*pool));
                                }
                                if self@.tokens_beside(key, seen).contains(token) {
                                    let p = choose|p: Address|
                                        #![trigger seen.contains(p)]
                                        seen.contains(p) && self@.state.contains_key(p)
                                            && token_keys(self@.state[p]).contains(token);
                                    assert(more.contains(p));
                                }
                                if all.contains(token) {
                                    let p = choose|p: Address|
                                        #![trigger more.contains(p)]
                                        more.contains(p) && self@.state.contains_key(p)
                                            && token_keys(self@.state[p]).contains(token);
                                    assert(p == *pool || seen.contains(p));
                                }
                            }
                            assert(connected@ =~= all);
                        }
                    },
                    None => {
                        proof {
                            let more = seen.insert(*pool);
                            let all = self@.tokens_beside(key, more);
                            assert forall|token: Seq<char>|
                                connected@.contains(token) <==> all.contains(token) by {
                                if self@.tokens_beside(key, seen).contains(token) {
                                    let p = choose|p: Address|
                                        #![trigger seen.contains(p)]
                                        seen.contains(p) && self@.state.contains_key(p)
                                            && token_keys(self@.state[p]).contains(token);
                                    assert(more.contains(p));
                                }
                                if all.contains(token) {
                                    let p = choose|p: Address|
                                        #![trigger more.contains(p)]
                                        more.contains(p) && self@.state.contains_key(p)
                                            && token_keys(self@.state[p]).contains(token);
                                    assert(seen.contains(p));
                                }
                            }
                            assert(connected@ =~= all);
                        }
                    },
                }
                i = i + 1;
            }
            assert(order.take(i as int) =~= order);
        }
        connected.to_vec()
    }

    /// Adds the tokens of `amm` other than `token_address` to `connected`.
    fn connect_tokens(&self, connected: &mut KeySet<String>, amm: &AMM, token_address: &String)
        requires
            old(connected).wf(),
        ensures
            final(connected).wf(),
            forall|token: Seq<char>|
                final(connected)@.contains(token) <==> old(connected)@.contains(token) || (token
                    != token_address@ && token_keys(amm@).contains(token)),
    {
        let tokens = self.index_keys(amm);
        let ghost keys = token_keys(amm@);
        let mut i: usize = 0;
        while i < tokens.len()
            invariant
                connected.wf(),
                i <= tokens@.len(),
                keys == token_keys(amm@),
                text_views(tokens@) == keys,
                forall|token: Seq<char>|
                    connected@.contains(token) <==> old(connected)@.contains(token) || (token
                        != token_address@ && keys.take(i as int).contains(token)),
            decreases tokens@.len() - i,
        {
            let token_lower = tokens[i].clone();
            assert(text_views(tokens@)[i as int] == token_lower@);
            let ghost word = token_lower@;
            let ghost before = connected@;
            if token_lower != *token_address {
                connected.insert(token_lower);
            }
            proof {
                assert(keys.take(i + 1) =~= keys.take(i as int).push(word));
                lemma_push_to_set(keys.take(i as int), word);
                assert forall|token: Seq<char>|
                    connected@.contains(token) <==> old(connected)@.contains(token) || (token
                        != token_address@ && keys.take(i + 1).contains(token)) by {
                    assert(keys.take(i + 1).to_set().contains(token) <==> keys.take(
                        i as int,
                    ).to_set().insert(word).contains(token));
                }
            }
            i = i + 1;
        }
        assert(text_views(tokens@).len() == tokens@.len());
        assert(keys.take(i as int) =~= keys);
    }

    /// The addresses of the tokens of a pool, as text.
    fn extract_tokens_from_amm(&self, amm: &AMM) -> (tokens: Vec<String>)
        ensures
            text_views(tokens@) == amm@.tokens().map_values(|t: Address| address_text(t)),
    {
        let ghost expected = amm@.tokens().map_values(|t: Address| address_text(t));
        match &amm.pool {
            Pool::UniswapV2Pool(pool) => {
                two_texts(&pool.token_a.address, &pool.token_b.address)
            },
            Pool::UniswapV3Pool(pool) => {
                two_texts(&pool.token_a.address, &pool.token_b.address)
            },
            Pool::UniswapV3VariantPool(pool) => {
                two_texts(&pool.token_a.address, &pool.token_b.address)
            },
            Pool::UniswapV2VariantPool(pool) => {
                two_texts(&pool.token_a.address, &pool.token_b.address)
            },
            Pool::ERC4626Vault(vault) => two_texts(&vault.vault_token, &vault.asset_token),
            Pool::BalancerPool(pool) => {
                let mut tokens: Vec<String> = Vec::new();
                let mut i: usize = 0;
                assert(text_views(tokens@) =~= expected.take(0));
                while i < pool.tokens.len()
                    invariant
                        i <= pool.tokens@.len(),
                        expected == pool.tokens@.map_values(|t: Address| address_text(t)),
                        text_views(tokens@) == expected.take(i as int),
                    decreases pool.tokens@.len() - i,
                {
                    let text = debug_text(&pool.tokens[i]);
                    let ghost before = tokens@;
                    tokens.push(text);
                    proof {
                        assert(text_views(tokens@) =~= text_views(before).push(text@));
                        assert(expected.take(i + 1) =~= expected.take(i as int).push(text@));
                    }
                    i = i + 1;
                }
                assert(expected.take(i as int) =~= expected);
                tokens
            },
        }
    }

    /// The keys of the tokens of a pool in the indexes.
    fn index_keys(&self, amm: &AMM) -> (keys: Vec<String>)
        ensures
            text_views(keys@) == token_keys(amm@),
            models(keys@) == token_keys(amm@),
    {
        let tokens = self.extract_tokens_from_amm(amm);
        let ghost texts = text_views(tokens@);
        let mut keys: Vec<String> = Vec::new();
        let mut i: usize = 0;
        assert(texts.len() == tokens@.len());
        assert(text_views(keys@) =~= token_keys(amm@).take(0));
        while i < tokens.len()
            invariant
                i <= tokens@.len(),
                tokens@.len() == texts.len(),
                texts == text_views(tokens@),
                texts == amm@.tokens().map_values(|t: Address| address_text(t)),
                text_views(keys@) == token_keys(amm@).take(i as int),
            decreases tokens@.len() - i,
        {
            assert(texts[i as int] == tokens@[i as int]@);
            let key = to_lowercase(tokens[i].as_str());
            let ghost before = keys@;
            keys.push(key);
            proof {
                let all = token_keys(amm@);
                assert(texts.len() == all.len());
                assert(texts[i as int] == address_text(amm@.tokens()[i as int]));
                assert(all[i as int] == key@);
                assert(text_views(keys@) =~= text_views(before).push(key@));
                assert(all.take(i + 1) =~= all.take(i as int).push(key@));
            }
            i = i + 1;
        }
        assert(token_keys(amm@).take(i as int) =~= token_keys(amm@));
        assert(models(keys@) =~= text_views(keys@));
        keys
    }

    /// Whether a pool holds enough to be put into the indexes.
    fn meets_minimum_requirements(&self, amm: &AMM) -> (enough: bool)
        ensures
            enough == amm@.meets_minimum_requirements(),
    {
        match &amm.pool {
            Pool::UniswapV3Pool(pool) => pool.liquidity != 0,
            Pool::UniswapV3VariantPool(pool) => pool.liquidity != 0,
            Pool::UniswapV2Pool(pool) => pool.sufficient_reserves,
            Pool::UniswapV2VariantPool(pool) => pool.sufficient_reserves,
            _ => true,
        }
    }

    /// Files a pool in the indexes, unless it holds too little.
    pub(crate) fn add_pool_to_indexes(&mut self, pool_address: Address, amm: &AMM)
        requires
            old(self).wf(),
        ensures
            final(self).wf(),
            final(self)@ == old(self)@.indexed(pool_address, amm@),
            final(self).state == old(self).state,
            final(self).cache == old(self).cache,
    {
        if !self.meets_minimum_requirements(amm) {
            return;
        }
        let tokens = self.index_keys(amm);
        let pairs = all_pairs(&tokens);
        self.token_to_pools.link_all(tokens, pool_address);
        self.token_pair_to_pools.link_all(pairs, pool_address);
    }

    /// Takes a pool out of the indexes.
    pub(crate) fn remove_pool_from_indexes(&mut self, pool_address: Address, amm: &AMM)
        requires
            old(self).wf(),
        ensures
            final(self).wf(),
            final(self)@ == old(self)@.unindexed(pool_address, amm@),
            final(self).state == old(self).state,
            final(self).cache == old(self).cache,
    {
        let tokens = self.index_keys(amm);
        let pairs = all_pairs(&tokens);
        self.token_to_pools.unlink_all(&tokens, &pool_address);
        self.token_pair_to_pools.unlink_all(&pairs, &pool_address);
    }

    /// Builds both indexes anew from the pools that are held.
    pub fn rebuild_indexes(&mut self)
        requires
            old(self).wf(),
        ensures
            final(self).wf(),
            final(self)@ == (SpaceView {
                token_to_pools: token_index_of(old(self)@.state),
                token_pair_to_pools: pair_index_of(old(self)@.state),
                ..old(self)@
            }),
            final(self)@.is_in_step(),
    {
        self.token_to_pools.clear();
        self.token_pair_to_pools.clear();
        let ghost state = self@.state;
        let ghost order = self.state.key_order();
        proof {
            self.state.lemma_key_order();
            let none = state.restrict(order.take(0).to_set());
            assert(none =~= Map::empty());
            assert(token_index_of(none) =~= Map::empty());
            assert(pair_index_of(none) =~= Map::empty());
        }
        let mut i: usize = 0;
        while i < self.state.len()
            invariant
                self.wf(),
                self.state == old(self).state,
                self.latest_block == old(self).latest_block,
                self.cache == old(self).cache,
                state == self@.state,
                order == self.state.key_order(),
                order.no_duplicates(),
                i <= order.len(),
                self@.token_to_pools == token_index_of(state.restrict(order.take(i as int).to_set())),
                self@.token_pair_to_pools == pair_index_of(
                    state.restrict(order.take(i as int).to_set()),
                ),
            decreases order.len() - i,
        {
            let (address, amm): (Address, AMM) = {
                let entry = self.state.entry(i);
                (*entry.0, entry.1.clone())
            };
            let ghost before = state.restrict(order.take(i as int).to_set());
            self.add_pool_to_indexes(address, &amm);
            proof {
                let after = state.restrict(order.take(i + 1).to_set());
                assert(order.take(i + 1) =~= order.take(i as int).push(address));
                lemma_push_to_set(order.take(i as int), address);
                assert(after =~= before.insert(address, amm@));
                assert(!before.contains_key(address)) by {
                    if order.take(i as int).contains(address) {
                        let j = order.take(i as int).index_of(address);
                        assert(order[j] == order[i as int]);
                    }
                }
                lemma_index_of_insert(
                    before,
                    |amm: AmmView| proper_token_keys(amm),
                    address,
                    amm@,
                );
                lemma_index_of_insert(before, |amm: AmmView| proper_pair_keys(amm), address, amm@);
                lemma_linked_none(token_index_of(before), address);
                lemma_linked_none(pair_index_of(before), address);
            }
            i = i + 1;
        }
        proof {
            assert(order.take(i as int) =~= order);
            self.state.lemma_key_order();
            assert(state.restrict(order.to_set()) =~= state) by {
                assert forall|a: Address| state.contains_key(a) implies order.to_set().contains(
                    a,
                ) by {
                    assert(self.state@.contains_key(a));
                }
            }
        }
    }
}

/// The pairs of the key at `first` with those before `second`, and of every key before `first`
/// with all others.
spec fn pairs_before(keys: Seq<Seq<char>>, first: int, second: int) -> Set<
    (Seq<char>, Seq<char>),
> {
    Set::new(
        |pair: (Seq<char>, Seq<char>)|
            exists|i: int, j: int|
                {
                    &&& 0 <= i < keys.len()
                    &&& 0 <= j < keys.len()
                    &&& i != j
                    &&& i < first || (i == first && j < second)
                    &&& pair == (#[trigger] keys[i], #[trigger] keys[j])
                },
    )
}

/// All pairs of two keys at different positions.
fn all_pairs(keys: &Vec<String>) -> (pairs: Vec<(String, String)>)
    ensures
        models(pairs@).to_set() == pairs_of(text_views(keys@)),
{
    let ghost words = text_views(keys@);
    let mut pairs: Vec<(String, String)> = Vec::new();
    assert(words.len() == keys@.len());
    assert(models(pairs@).to_set() =~= pairs_before(words, 0, 0));
    let mut i: usize = 0;
    while i < keys.len()
        invariant
            i <= keys@.len(),
            words == text_views(keys@),
            words.len() == keys@.len(),
            models(pairs@).to_set() == pairs_before(words, i as int, 0),
        decreases keys@.len() - i,
    {
        let mut j: usize = 0;
        while j < keys.len()
            invariant
                i < keys@.len(),
                j <= keys@.len(),
                words == text_views(keys@),
                words.len() == keys@.len(),
                models(pairs@).to_set() == pairs_before(words, i as int, j as int),
            decreases keys@.len() - j,
        {
            let ghost had = pairs@;
            let ghost pair = (words[i as int], words[j as int]);
            if i != j {
                let first = keys[i].clone();
                let second = keys[j].clone();
                pairs.push((first, second));
                proof {
                    assert(words[i as int] == keys@[i as int]@);
                    assert(words[j as int] == keys@[j as int]@);
                    assert(models(pairs@) =~= models(had).push(pair));
                    lemma_push_to_set(models(had), pair);
                }
            }
            proof {
                let now = pairs_before(words, i as int, j + 1);
                let then = pairs_before(words, i as int, j as int);
                assert forall|k: (Seq<char>, Seq<char>)|
                    models(pairs@).to_set().contains(k) <==> now.contains(k) by {
                    if now.contains(k) && !then.contains(k) {
                        assert(k == pair && i != j);
                    }
                    if i != j {
                        assert(now.contains((words[i as int], words[j as int])));
                    }
                }
                assert(models(pairs@).to_set() =~= now);
            }
            j = j + 1;
        }
        assert(pairs_before(words, i as int, j as int) =~= pairs_before(words, i + 1, 0));
        i = i + 1;
    }
    assert(pairs_before(words, i as int, 0) =~= pairs_of(words));
    pairs
}

/// The texts of two addresses.
fn two_texts(first: &Address, second: &Address) -> (texts: Vec<String>)
    ensures
        text_views(texts@) == seq![*first, *second].map_values(|t: Address| address_text(t)),
{
    let mut texts: Vec<String> = Vec::new();
    texts.push(debug_text(first));
    texts.push(debug_text(second));
    assert(text_views(texts@) =~= seq![*first, *second].map_values(
        |t: Address| address_text(t),
    ));
    texts
}

} // verus!
