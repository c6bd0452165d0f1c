//! What the views of the data types keep: everything.
use crate::amm::{amm_views, Pool, PoolView, AMM};
use crate::cache::StateChange;
use crate::factory::Factory;
use crate::grouping::list_views;
use crate::key_set::text_views;
use crate::primitives::Address;
use crate::space::StateSpace;
use crate::sync::{factory_views, Log, SyncRun};
use vstd::prelude::*;

verus! {

/// The view of a pool has its address, its events and all that the protocol keeps.
pub proof fn law_view_of_a_pool(amm: AMM)
    ensures
        amm@.address == amm.address,
        amm@.sync_events == amm.sync_events@,
        match amm.pool {
            Pool::UniswapV2Pool(pool) => amm@.pool == PoolView::UniswapV2Pool(pool),
            Pool::UniswapV2VariantPool(pool) => amm@.pool == PoolView::UniswapV2VariantPool(pool),
            Pool::UniswapV3Pool(pool) => amm@.pool matches PoolView::UniswapV3Pool(view) && {
                &&& view.token_a == pool.token_a
                &&& view.token_b == pool.token_b
                &&& view.liquidity == pool.liquidity
                &&& view.ticks == pool.ticks@
                &&& view.factory_address == pool.factory_address
            },
            Pool::UniswapV3VariantPool(pool) => {
                &&& amm@.pool matches PoolView::UniswapV3VariantPool(view)
                &&& view.token_a == pool.token_a
                &&& view.token_b == pool.token_b
                &&& view.liquidity == pool.liquidity
                &&& view.ticks == pool.ticks@
                &&& view.factory_address == pool.factory_address
            },
            Pool::ERC4626Vault(vault) => amm@.pool == PoolView::ERC4626Vault(vault),
            Pool::BalancerPool(pool) => amm@.pool == PoolView::BalancerPool(pool.tokens@),
        },
{
}

/// The view of a factory has its address, its protocol and its events.
pub proof fn law_view_of_a_factory(factory: Factory)
    ensures
        factory@.address == factory.address,
        factory@.variant == factory.variant,
        factory@.discovery_event == factory.discovery_event,
        factory@.pool_events == factory.pool_events@,
{
}

/// The view of a log has its address, its topics and its block.
pub proof fn law_view_of_a_log(log: Log)
    ensures
        log@.address == log.address,
        log@.topics == log.topics@,
        log@.block_number == log.block_number,
{
}

/// The view of a change has its block and the view of each of its pools, in order.
pub proof fn law_view_of_a_change(change: StateChange, at: int)
    ensures
        change@.block_number == change.block_number,
        change@.state_change.len() == change.state_change@.len(),
        0 <= at < change.state_change@.len() ==> change@.state_change[at]
            == change.state_change@[at]@,
{
}

/// The view of a pass has its blocks, its position, and the pools that it has changed or affected.
pub proof fn law_view_of_a_pass(run: SyncRun, at: int)
    ensures
        run@.protected == run.protected,
        run@.block_number == run.block_number,
        run@.reset_block == run.reset_block,
        run@.position == run.position,
        run@.affected == run.affected@,
        run@.changed.len() == run.changed@.len(),
        0 <= at < run.changed@.len() ==> run@.changed[at] == run.changed@[at]@,
{
}

/// The view of a space has the view of every pool under the address where it is held, and no
/// other, the latest block, what is remembered, and both indexes.
pub proof fn law_view_of_a_space(space: StateSpace, address: Address)
    ensures
        space@.state.contains_key(address) <==> space.state@.contains_key(address),
        space.state@.contains_key(address) ==> space@.state[address] == space.state@[address]@,
        space@.latest_block == space.latest_block,
        space@.cache == space.cache@,
        space@.token_to_pools == space.token_to_pools@,
        space@.token_pair_to_pools == space.token_pair_to_pools@,
{
}

/// The views of several values are the view of each, in order.
pub proof fn law_views_of_lists(
    amms: Seq<AMM>,
    lists: Seq<Vec<AMM>>,
    factories: Seq<Factory>,
    texts: Seq<String>,
    at: int,
    within: int,
)
    ensures
        amm_views(amms).len() == amms.len(),
        0 <= at < amms.len() ==> amm_views(amms)[at] == amms[at]@,
        list_views(lists).len() == lists.len(),
        0 <= at < lists.len() ==> list_views(lists)[at].len() == lists[at]@.len(),
        0 <= at < lists.len() && 0 <= within < lists[at]@.len() ==> list_views(lists)[at][within]
            == lists[at]@[within]@,
        factory_views(factories).len() == factories.len(),
        0 <= at < factories.len() ==> factory_views(factories)[at] == factories[at]@,
        text_views(texts).len() == texts.len(),
        0 <= at < texts.len() ==> text_views(texts)[at] == texts[at]@,
{
}

} // verus!
