//! What a lookup in the indexes finds.
use crate::amm::{AmmView, PoolView};
use crate::index::pools_under;
use crate::primitives::{address_text, law_address_text_is_lower_case, Address};
use crate::space::{
    pair_keys, pairs_of, proper_pair_keys, proper_token_keys, token_key, token_keys, SpaceView,
};
use crate::text::{ascii_lower, lower};
use vstd::prelude::*;
use vstd::utf8::is_ascii_chars;

verus! {

/// Two ASCII texts that differ in nothing but the case of their letters.
pub open spec fn same_but_case(a: Seq<char>, b: Seq<char>) -> bool {
    &&& is_ascii_chars(a)
    &&& is_ascii_chars(b)
    &&& a.len() == b.len()
    &&& forall|i: int| 0 <= i < a.len() ==> ascii_lower(#[trigger] a[i]) == ascii_lower(b[i])
}

/// Texts with the same lower case are looked up alike.
pub proof fn law_lookups_go_by_lower_case(
    space: SpaceView,
    a: Seq<char>,
    b: Seq<char>,
    other: Seq<char>,
)
    requires
        lower(a) == lower(b),
    ensures
        space.pools_by_token(a) == space.pools_by_token(b),
        space.pools_by_pair(a, other) == space.pools_by_pair(b, other),
        space.pools_by_pair(other, a) == space.pools_by_pair(other, b),
        space.connected_to(a) == space.connected_to(b),
{
}

/// Texts that differ in the case of ASCII letters alone have the same lower case.
pub proof fn law_case_does_not_matter(a: Seq<char>, b: Seq<char>)
    requires
        same_but_case(a, b),
    ensures
        lower(a) == lower(b),
{
    assert(lower(a) =~= lower(b));
}

/// `a` to `z` become `A` to `Z`; every other character stays.
pub open spec fn ascii_upper(c: char) -> char {
    if 'a' <= c && c <= 'z' {
        (c as u32 - 32) as char
    } else {
        c
    }
}

/// An ASCII text in upper case is looked up like the text itself.
pub proof fn law_upper_case_finds_the_same(space: SpaceView, text: Seq<char>, other: Seq<char>)
    requires
        is_ascii_chars(text),
    ensures
        ({
            let upper = text.map_values(|c: char| ascii_upper(c));
            &&& space.pools_by_token(upper) == space.pools_by_token(text)
            &&& space.pools_by_pair(upper, other) == space.pools_by_pair(text, other)
            &&& space.pools_by_pair(other, upper) == space.pools_by_pair(other, text)
            &&& space.connected_to(upper) == space.connected_to(text)
        }),
{
    let upper = text.map_values(|c: char| ascii_upper(c));
    assert forall|i: int| 0 <= i < text.len() implies {
        &&& 0 <= #[trigger] upper[i] as nat <= 127
        &&& ascii_lower(upper[i]) == ascii_lower(text[i])
    } by {
        assert(0 <= text[i] as nat <= 127);
    }
    assert(same_but_case(upper, text));
    law_case_does_not_matter(upper, text);
    law_lookups_go_by_lower_case(space, upper, text, other);
}

/// A token is looked up by its address as text, in any case.
pub proof fn law_token_is_found_by_its_address(token: Address, text: Seq<char>)
    requires
        same_but_case(text, address_text(token)),
    ensures
        lower(text) == token_key(token),
        token_key(token) == address_text(token),
{
    law_case_does_not_matter(text, address_text(token));
    law_address_text_is_lower_case(token);
}

/// Different tokens have different keys.
pub proof fn law_token_keys_are_distinct(a: Address, b: Address)
    requires
        token_key(a) == token_key(b),
    ensures
        a == b,
{
    law_address_text_is_lower_case(a);
    law_address_text_is_lower_case(b);
    let (text_a, text_b) = (address_text(a), address_text(b));
    assert forall|i: int| 0 <= i < 20 implies a.0@[i] == b.0@[i] by {
        let (high, low) = (2 + 2 * i, 3 + 2 * i);
        assert(text_a[high] == text_b[high]);
        assert(text_a[low] == text_b[low]);
        assert((2 * i) / 2 == i && (2 * i + 1) / 2 == i);
        assert((2 * i) % 2 == 0 && (2 * i + 1) % 2 == 1);
        let (x, y) = (a.0@[i], b.0@[i]);
        assert(x / 16 == y / 16);
        assert(x % 16 == y % 16);
    }
    assert(a.0@ =~= b.0@);
    assert(a.0 =~= b.0);
}

/// With the indexes in step, looking up a token by its address finds the pools that are held,
/// hold enough and trade the token, and no others.
pub proof fn law_token_lookup_is_exact(
    space: SpaceView,
    token: Address,
    text: Seq<char>,
    pool: Address,
)
    requires
        space.is_in_step(),
        same_but_case(text, address_text(token)),
    ensures
        space.pools_by_token(text).contains(pool) <==> {
            &&& space.state.contains_key(pool)
            &&& space.state[pool].meets_minimum_requirements()
            &&& space.state[pool].tokens().contains(token)
        },
{
    law_token_is_found_by_its_address(token, text);
    lemma_token_keys(space.state[pool], token);
    lemma_filed_under_token(space, token_key(token), pool);
}

/// With the indexes in step, a pool is filed under a key exactly if it belongs there.
proof fn lemma_filed_under_token(space: SpaceView, key: Seq<char>, pool: Address)
    requires
        space.is_in_step(),
    ensures
        pools_under(space.token_to_pools, key).contains(pool) <==> space.state.contains_key(pool)
            && proper_token_keys(space.state[pool]).contains(key),
{
    if space.state.contains_key(pool) && proper_token_keys(space.state[pool]).contains(key) {
        assert(space.token_to_pools.contains_key(key));
    }
}

proof fn lemma_filed_under_pair(space: SpaceView, key: (Seq<char>, Seq<char>), pool: Address)
    requires
        space.is_in_step(),
    ensures
        pools_under(space.token_pair_to_pools, key).contains(pool) <==> space.state.contains_key(
            pool,
        ) && proper_pair_keys(space.state[pool]).contains(key),
{
    if space.state.contains_key(pool) && proper_pair_keys(space.state[pool]).contains(key) {
        assert(space.token_pair_to_pools.contains_key(key));
    }
}

proof fn lemma_token_keys(amm: AmmView, token: Address)
    ensures
        token_keys(amm).to_set().contains(token_key(token)) <==> amm.tokens().contains(token),
{
    let keys = token_keys(amm);
    if amm.tokens().contains(token) {
        let i = amm.tokens().index_of(token);
        assert(keys[i] == token_key(token));
    }
    if keys.contains(token_key(token)) {
        let i = keys.index_of(token_key(token));
        law_token_keys_are_distinct(amm.tokens()[i], token);
    }
}

/// A pair and its reverse are keys of the same pools.
proof fn lemma_pairs_reverse(keys: Seq<Seq<char>>, a: Seq<char>, b: Seq<char>)
    ensures
        pairs_of(keys).contains((a, b)) <==> pairs_of(keys).contains((b, a)),
{
    if pairs_of(keys).contains((a, b)) {
        let (i, j) = choose|i: int, j: int|
            0 <= i < keys.len() && 0 <= j < keys.len() && i != j && (a, b) == (
                #[trigger] keys[i],
                #[trigger] keys[j],
            );
        assert((b, a) == (keys[j], keys[i]));
    }
    if pairs_of(keys).contains((b, a)) {
        let (i, j) = choose|i: int, j: int|
            0 <= i < keys.len() && 0 <= j < keys.len() && i != j && (b, a) == (
                #[trigger] keys[i],
                #[trigger] keys[j],
            );
        assert((a, b) == (keys[j], keys[i]));
    }
}

/// `a` and `b` stand at different places among the tokens of a pool.
pub open spec fn trades_pair(amm: AmmView, a: Address, b: Address) -> bool {
    exists|i: int, j: int|
        {
            &&& 0 <= i < amm.tokens().len()
            &&& 0 <= j < amm.tokens().len()
            &&& i != j
            &&& #[trigger] amm.tokens()[i] == a
            &&& #[trigger] amm.tokens()[j] == b
        }
}

proof fn lemma_pair_keys(amm: AmmView, a: Address, b: Address)
    ensures
        pair_keys(amm).contains((token_key(a), token_key(b))) <==> trades_pair(amm, a, b),
{
    let keys = token_keys(amm);
    let tokens = amm.tokens();
    let pair = (token_key(a), token_key(b));
    if pair_keys(amm).contains(pair) {
        let (i, j) = choose|i: int, j: int|
            0 <= i < keys.len() && 0 <= j < keys.len() && i != j && pair == (
                #[trigger] keys[i],
                #[trigger] keys[j],
            );
        law_token_keys_are_distinct(tokens[i], a);
        law_token_keys_are_distinct(tokens[j], b);
    }
    if trades_pair(amm, a, b) {
        let (i, j) = choose|i: int, j: int|
            {
                &&& 0 <= i < tokens.len()
                &&& 0 <= j < tokens.len()
                &&& i != j
                &&& #[trigger] tokens[i] == a
                &&& #[trigger] tokens[j] == b
            };
        assert(pair == (keys[i], keys[j]));
    }
}

/// With the indexes in step, looking up a pair of tokens by their addresses finds the pools that
/// are held, hold enough and trade both, and no others.
pub proof fn law_pair_lookup_is_exact(
    space: SpaceView,
    a: Address,
    b: Address,
    text_a: Seq<char>,
    text_b: Seq<char>,
    pool: Address,
)
    requires
        space.is_in_step(),
        same_but_case(text_a, address_text(a)),
        same_but_case(text_b, address_text(b)),
    ensures
        space.pools_by_pair(text_a, text_b).contains(pool) <==> {
            &&& space.state.contains_key(pool)
            &&& space.state[pool].meets_minimum_requirements()
            &&& trades_pair(space.state[pool], a, b)
        },
{
    law_token_is_found_by_its_address(a, text_a);
    law_token_is_found_by_its_address(b, text_b);
    let amm = space.state[pool];
    let (there, back) = ((token_key(a), token_key(b)), (token_key(b), token_key(a)));
    lemma_pair_keys(amm, a, b);
    lemma_pairs_reverse(token_keys(amm), token_key(a), token_key(b));
    lemma_filed_under_pair(space, there, pool);
    lemma_filed_under_pair(space, back, pool);
}

/// A pair has the same pools in either order.
pub proof fn law_pair_lookup_is_symmetric(space: SpaceView, a: Seq<char>, b: Seq<char>)
    ensures
        space.pools_by_pair(a, b) == space.pools_by_pair(b, a),
{
    assert(space.pools_by_pair(a, b) =~= space.pools_by_pair(b, a));
}

/// With the indexes in step, two tokens are connected exactly if they are different and there is
/// a pool for their pair.
pub proof fn law_connected_tokens_have_a_pool(space: SpaceView, a: Seq<char>, b: Seq<char>)
    requires
        space.is_in_step(),
    ensures
        space.connected_to(a).contains(lower(b)) <==> lower(a) != lower(b) && exists|pool: Address|
            space.pools_by_pair(a, b).contains(pool),
{
    let (x, y) = (lower(a), lower(b));
    let pools = space.pools_by_token(a);
    if space.connected_to(a).contains(y) {
        let pool = choose|pool: Address|
            #![trigger pools.contains(pool)]
            pools.contains(pool) && space.state.contains_key(pool) && token_keys(
                space.state[pool],
            ).contains(y);
        let keys = token_keys(space.state[pool]);
        lemma_filed_under_token(space, x, pool);
        lemma_filed_under_pair(space, (x, y), pool);
        assert(keys.to_set().contains(x));
        assert(keys[keys.index_of(x)] == x && keys[keys.index_of(y)] == y);
        assert(pairs_of(keys).contains((keys[keys.index_of(x)], keys[keys.index_of(y)])));
        assert(space.pools_by_pair(a, b).contains(pool));
    }
    if x != y && exists|pool: Address| space.pools_by_pair(a, b).contains(pool) {
        let pool = choose|pool: Address| space.pools_by_pair(a, b).contains(pool);
        let keys = token_keys(space.state[pool]);
        lemma_filed_under_pair(space, (x, y), pool);
        lemma_filed_under_pair(space, (y, x), pool);
        lemma_pairs_reverse(keys, x, y);
        let (i, j) = choose|i: int, j: int|
            0 <= i < keys.len() && 0 <= j < keys.len() && i != j && (x, y) == (
                #[trigger] keys[i],
                #[trigger] keys[j],
            );
        assert(keys.to_set().contains(keys[i]));
        lemma_filed_under_token(space, x, pool);
        assert(pools.contains(pool) && keys.contains(keys[j]));
    }
}

/// No token is connected to itself, and with the indexes in step, of two tokens either both are
/// connected to each other or neither is.
pub proof fn law_connection_is_mutual(space: SpaceView, a: Seq<char>, b: Seq<char>)
    requires
        space.is_in_step(),
    ensures
        !space.connected_to(a).contains(lower(a)),
        space.connected_to(a).contains(lower(b)) <==> space.connected_to(b).contains(lower(a)),
{
    law_connected_tokens_have_a_pool(space, a, b);
    law_connected_tokens_have_a_pool(space, b, a);
    law_pair_lookup_is_symmetric(space, a, b);
}

/// A token is one of those that the pool's own fields name.
pub open spec fn names_token(pool: PoolView, token: Address) -> bool {
    match pool {
        PoolView::UniswapV2Pool(v2) => token == v2.token_a.address || token == v2.token_b.address,
        PoolView::UniswapV2VariantPool(v2) => token == v2.token_a.address || token
            == v2.token_b.address,
        PoolView::UniswapV3Pool(v3) => token == v3.token_a.address || token == v3.token_b.address,
        PoolView::UniswapV3VariantPool(v3) => token == v3.token_a.address || token
            == v3.token_b.address,
        PoolView::ERC4626Vault(vault) => token == vault.vault_token || token == vault.asset_token,
        PoolView::BalancerPool(tokens) => exists|i: int|
            0 <= i < tokens.len() && #[trigger] tokens[i] == token,
    }
}

/// Two tokens are the two that the pool's own fields name, in either order, or any two of a pool
/// of many tokens.
pub open spec fn names_pair(pool: PoolView, a: Address, b: Address) -> bool {
    match pool {
        PoolView::UniswapV2Pool(v2) => is_pair(a, b, v2.token_a.address, v2.token_b.address),
        PoolView::UniswapV2VariantPool(v2) => is_pair(a, b, v2.token_a.address, v2.token_b.address),
        PoolView::UniswapV3Pool(v3) => is_pair(a, b, v3.token_a.address, v3.token_b.address),
        PoolView::UniswapV3VariantPool(v3) => is_pair(a, b, v3.token_a.address, v3.token_b.address),
        PoolView::ERC4626Vault(vault) => is_pair(a, b, vault.vault_token, vault.asset_token),
        PoolView::BalancerPool(tokens) => exists|i: int, j: int|
            0 <= i < tokens.len() && 0 <= j < tokens.len() && i != j && #[trigger] tokens[i] == a
                && #[trigger] tokens[j] == b,
    }
}

/// `a` and `b` are `first` and `second`, in either order.
pub open spec fn is_pair(a: Address, b: Address, first: Address, second: Address) -> bool {
    (a == first && b == second) || (a == second && b == first)
}

/// What the pool's own fields say of whether it holds enough.
pub open spec fn holds_enough(pool: PoolView) -> bool {
    match pool {
        PoolView::UniswapV2Pool(v2) => v2.sufficient_reserves,
        PoolView::UniswapV2VariantPool(v2) => v2.sufficient_reserves,
        PoolView::UniswapV3Pool(v3) => v3.liquidity > 0,
        PoolView::UniswapV3VariantPool(v3) => v3.liquidity > 0,
        PoolView::ERC4626Vault(_) => true,
        PoolView::BalancerPool(_) => true,
    }
}

proof fn lemma_names(amm: AmmView, a: Address, b: Address)
    ensures
        amm.tokens().contains(a) <==> names_token(amm.pool, a),
        trades_pair(amm, a, b) <==> names_pair(amm.pool, a, b),
        amm.meets_minimum_requirements() <==> holds_enough(amm.pool),
{
    let tokens = amm.tokens();
    if !(amm.pool is BalancerPool) {
        assert(tokens.len() == 2);
        assert(tokens[0] == tokens[0] && tokens[1] == tokens[1]);
    }
    if tokens.contains(a) {
        let i = tokens.index_of(a);
        assert(tokens[i] == a);
    }
}

/// With the indexes in step, a token finds a pool exactly if the pool is held, holds enough, and
/// its own fields name the token.
pub proof fn law_token_lookup_goes_by_the_fields(
    space: SpaceView,
    token: Address,
    text: Seq<char>,
    pool: Address,
)
    requires
        space.is_in_step(),
        same_but_case(text, address_text(token)),
    ensures
        space.pools_by_token(text).contains(pool) <==> {
            &&& space.state.contains_key(pool)
            &&& holds_enough(space.state[pool].pool)
            &&& names_token(space.state[pool].pool, token)
        },
{
    law_token_lookup_is_exact(space, token, text, pool);
    lemma_names(space.state[pool], token, token);
}

/// With the indexes in step, a pair of tokens finds a pool exactly if the pool is held, holds
/// enough, and its own fields name the two.
pub proof fn law_pair_lookup_goes_by_the_fields(
    space: SpaceView,
    a: Address,
    b: Address,
    text_a: Seq<char>,
    text_b: Seq<char>,
    pool: Address,
)
    requires
        space.is_in_step(),
        same_but_case(text_a, address_text(a)),
        same_but_case(text_b, address_text(b)),
    ensures
        space.pools_by_pair(text_a, text_b).contains(pool) <==> {
            &&& space.state.contains_key(pool)
            &&& holds_enough(space.state[pool].pool)
            &&& names_pair(space.state[pool].pool, a, b)
        },
{
    law_pair_lookup_is_exact(space, a, b, text_a, text_b, pool);
    lemma_names(space.state[pool], a, b);
}

/// `pool` is held, holds enough, and its own fields name both tokens.
pub open spec fn joins(space: SpaceView, pool: Address, a: Address, b: Address) -> bool {
    &&& space.state.contains_key(pool)
    &&& holds_enough(space.state[pool].pool)
    &&& names_token(space.state[pool].pool, a)
    &&& names_token(space.state[pool].pool, b)
}

/// With the indexes in step, the tokens connected to a token are the others that a pool names
/// besides it, as texts, and nothing else.
pub proof fn law_connection_goes_by_the_fields(
    space: SpaceView,
    a: Address,
    text: Seq<char>,
    word: Seq<char>,
)
    requires
        space.is_in_step(),
        same_but_case(text, address_text(a)),
    ensures
        space.connected_to(text).contains(word) <==> exists|b: Address, pool: Address|
            word == address_text(b) && b != a && #[trigger] joins(space, pool, a, b),
{
    law_token_is_found_by_its_address(a, text);
    let pools = space.pools_by_token(text);
    if space.connected_to(text).contains(word) {
        let pool = choose|pool: Address|
            #![trigger pools.contains(pool)]
            pools.contains(pool) && space.state.contains_key(pool) && token_keys(
                space.state[pool],
            ).contains(word);
        let amm = space.state[pool];
        let i = token_keys(amm).index_of(word);
        let b = amm.tokens()[i];
        law_address_text_is_lower_case(b);
        law_token_lookup_goes_by_the_fields(space, a, text, pool);
        lemma_names(amm, b, b);
        assert(amm.tokens().contains(b));
        assert(word == address_text(b));
        assert(joins(space, pool, a, b));
    }
    if exists|b: Address, pool: Address|
        word == address_text(b) && b != a && #[trigger] joins(space, pool, a, b) {
        let (b, pool) = choose|b: Address, pool: Address|
            word == address_text(b) && b != a && #[trigger] joins(space, pool, a, b);
        let amm = space.state[pool];
        law_address_text_is_lower_case(b);
        law_address_text_is_lower_case(a);
        law_token_lookup_goes_by_the_fields(space, a, text, pool);
        lemma_names(amm, b, b);
        lemma_token_keys(amm, b);
        assert(token_keys(amm).contains(word));
        assert(pools.contains(pool));
        if word == lower(text) {
            law_token_keys_are_distinct(a, b);
        }
    }
}

/// With the indexes in step, a text that is not the address of a token finds nothing.
pub proof fn law_other_text_finds_nothing(space: SpaceView, text: Seq<char>, pool: Address)
    requires
        space.is_in_step(),
        forall|token: Address| lower(text) != #[trigger] address_text(token),
    ensures
        !space.pools_by_token(text).contains(pool),
        space.connected_to(text) == Set::<Seq<char>>::empty(),
{
    assert forall|p: Address| !(#[trigger] space.pools_by_token(text).contains(p)) by {
        lemma_filed_under_token(space, lower(text), p);
        let amm = space.state[p];
        if space.pools_by_token(text).contains(p) {
            let keys = token_keys(amm);
            assert(keys.to_set().contains(lower(text)));
            let token = amm.tokens()[keys.index_of(lower(text))];
            law_address_text_is_lower_case(token);
            assert(lower(text) == address_text(token));
        }
    }
    assert(space.connected_to(text) =~= Set::<Seq<char>>::empty());
}

/// Filing a pool puts it under each token and each pair that its own fields name, if it holds
/// enough, and moves nothing else. Taking it out removes it from all of these.
pub proof fn law_filing_goes_by_the_fields(
    space: SpaceView,
    pool: Address,
    amm: AmmView,
    a: Address,
    b: Address,
    other: Address,
)
    ensures
        ({
            let (key, pair) = (address_text(a), (address_text(a), address_text(b)));
            let filed = space.indexed(pool, amm);
            let removed = space.unindexed(pool, amm);
            let own = other == pool;
            &&& filed.state == space.state && removed.state == space.state
            &&& filed.cache == space.cache && removed.cache == space.cache
            &&& filed.latest_block == space.latest_block && removed.latest_block
                == space.latest_block
            &&& pools_under(filed.token_to_pools, key).contains(other) <==> pools_under(
                space.token_to_pools,
                key,
            ).contains(other) || (own && holds_enough(amm.pool) && names_token(amm.pool, a))
            &&& pools_under(filed.token_pair_to_pools, pair).contains(other) <==> pools_under(
                space.token_pair_to_pools,
                pair,
            ).contains(other) || (own && holds_enough(amm.pool) && names_pair(amm.pool, a, b))
            &&& pools_under(removed.token_to_pools, key).contains(other) <==> pools_under(
                space.token_to_pools,
                key,
            ).contains(other) && !(own && names_token(amm.pool, a))
            &&& pools_under(removed.token_pair_to_pools, pair).contains(other) <==> pools_under(
                space.token_pair_to_pools,
                pair,
            ).contains(other) && !(own && names_pair(amm.pool, a, b))
        }),
{
    law_address_text_is_lower_case(a);
    law_address_text_is_lower_case(b);
    lemma_names(amm, a, b);
    lemma_token_keys(amm, a);
    lemma_pair_keys(amm, a, b);
}

/// An empty space holds nothing, finds nothing and remembers nothing.
pub proof fn law_empty_space_finds_nothing(a: Seq<char>, b: Seq<char>)
    ensures
        SpaceView::empty().state == Map::<Address, AmmView>::empty(),
        SpaceView::empty().latest_block == 0,
        SpaceView::empty().cache.len() == 0,
        SpaceView::empty().pools_by_token(a) == Set::<Address>::empty(),
        SpaceView::empty().pools_by_pair(a, b) == Set::<Address>::empty(),
        SpaceView::empty().connected_to(a) == Set::<Seq<char>>::empty(),
{
    let space = SpaceView::empty();
    assert(space.pools_by_pair(a, b) =~= Set::<Address>::empty());
    assert(space.connected_to(a) =~= Set::<Seq<char>>::empty());
}

} // verus!
