//! What each step of a pass does, in terms of the log, the pools and the factories themselves.
use crate::amm::{AmmView, PoolView, Variant};
use crate::cache::StateChangeView;
use crate::error::{AMMError, StateSpaceError, UniswapV3Error};
use crate::factory::FactoryView;
use crate::index::pools_under;
use crate::key_set::lemma_push_to_set;
use crate::pass::{is_sound, is_well_keyed, mended, ran, settled, Reply};
use crate::primitives::Address;
use crate::space::{SpaceView, CACHE_SIZE};
use crate::sync::{
    addresses_of, after_failures, announces, is_creation, is_no_creation, law_retries_are_bounded,
    noted, synced, taken_up, InitRequest, InitStep, LogView, PoolReset, RunView, Step, SyncOutcome,
};
use crate::text::contains_text;
use vstd::prelude::*;

verus! {

/// `factory` has the address of `log`, and its discovery event is the first topic.
pub open spec fn is_announced_by(factory: FactoryView, log: LogView) -> bool {
    log.address == factory.address && log.topics[0] == factory.discovery_event
}

/// Two spaces hold the same pools, have the same indexes and the same latest block.
pub open spec fn same_but_cache(a: SpaceView, b: SpaceView) -> bool {
    &&& a.state == b.state
    &&& a.latest_block == b.latest_block
    &&& a.token_to_pools == b.token_to_pools
    &&& a.token_pair_to_pools == b.token_pair_to_pools
}

/// A pass starts with nothing changed and nothing affected, at the block that it is given.
pub proof fn law_pass_starts_clean(protected: bool, block_number: u64, reset_block: u64)
    ensures
        ({
            let run = RunView::started(protected, block_number, reset_block);
            &&& run.protected == protected
            &&& run.block_number == block_number
            &&& run.reset_block == reset_block
            &&& run.position == 0
            &&& run.changed.len() == 0
            &&& run.affected == Set::<Address>::empty()
        }),
{
}

/// A pass that starts beyond the latest block undoes nothing.
pub proof fn law_nothing_is_undone_beyond_the_latest_block(space: SpaceView, block_number: u64)
    requires
        space.latest_block < block_number,
    ensures
        space.reorganized(block_number) == space,
{
}

/// A pass that goes back to the latest block, or further, undoes its first block and later.
pub proof fn law_pass_that_goes_back_undoes_its_block(space: SpaceView, block_number: u64)
    requires
        space.latest_block >= block_number,
    ensures
        space.reorganized(block_number) == space.unwound(block_number),
{
}

/// In every pass a log that a factory announces a pool with asks the first such factory to build
/// it, and changes no pool.
pub proof fn law_creation_log_asks_for_the_pool(
    space: SpaceView,
    run: RunView,
    log: LogView,
    factories: Seq<FactoryView>,
    at: int,
)
    requires
        0 <= at < factories.len() <= usize::MAX,
        is_announced_by(factories[at], log),
        forall|i: int| 0 <= i < at ==> !is_announced_by(#[trigger] factories[i], log),
    ensures
        taken_up(space, run, log, factories).2 == Step::CreatePool(at as usize),
        same_but_cache(taken_up(space, run, log, factories).0, space),
        addresses_of(taken_up(space, run, log, factories).1.changed).subset_of(
            addresses_of(run.changed),
        ),
{
    assert(announces(factories[at], log));
    assert(is_creation(factories, log, at)) by {
        assert forall|i: int| 0 <= i < at implies !announces(
            #[trigger] factories[i],
            log,
        ) by {
            assert(!is_announced_by(factories[i], log));
        }
    }
    let chosen = choose|i: int| is_creation(factories, log, i);
    assert(is_creation(factories, log, chosen));
    if chosen < at {
        assert(!is_announced_by(factories[chosen], log));
    }
    if at < chosen {
        assert(!announces(factories[at], log));
    }
    assert(addresses_of(Seq::<AmmView>::empty()) =~= Set::empty());
}

/// A concentrated liquidity pool of either kind that has liquidity but no tick.
pub open spec fn lacks_ticks(pool: PoolView) -> bool {
    ||| pool matches PoolView::UniswapV3Pool(v3) && v3.liquidity != 0 && v3.ticks.len() == 0
    ||| pool matches PoolView::UniswapV3VariantPool(v3) && v3.liquidity != 0 && v3.ticks.len() == 0
}

/// How a pool is made anew: a concentrated liquidity pool from its own factory, and no other.
pub open spec fn is_reset_of(
    reset: PoolReset,
    pool: PoolView,
    address: Address,
    block_number: u64,
) -> bool {
    &&& reset.address == address
    &&& reset.block_number == block_number
    &&& match pool {
        PoolView::UniswapV3Pool(v3) => reset.factory_address == v3.factory_address && reset.variant
            == Variant::UniswapV3,
        PoolView::UniswapV3VariantPool(v3) => reset.factory_address == v3.factory_address
            && reset.variant == Variant::UniswapV3Variant,
        _ => false,
    }
}

/// A log of a held pool, of any protocol, asks to be applied to that pool. Only a protected pass
/// has a pool that lacks ticks read anew instead. The pool is noted as it was, and nothing held
/// changes yet.
pub proof fn law_log_of_a_held_pool_is_applied(
    space: SpaceView,
    run: RunView,
    log: LogView,
    factories: Seq<FactoryView>,
)
    requires
        forall|i: int| 0 <= i < factories.len() ==> !is_announced_by(#[trigger] factories[i], log),
        space.state.contains_key(log.address),
        space.state[log.address].address == log.address,
    ensures
        ({
            let (after, next, step) = taken_up(space, run, log, factories);
            let pool = space.state[log.address].pool;
            &&& same_but_cache(after, space)
            &&& addresses_of(next.changed).contains(log.address)
            &&& !(run.protected && lacks_ticks(pool)) ==> step == Step::SyncPool(log.address)
            &&& run.protected && lacks_ticks(pool) ==> step is ResetPool && is_reset_of(
                step->ResetPool_0,
                pool,
                log.address,
                run.reset_block,
            )
        }),
{
    lemma_no_creation(factories, log);
    let base = if run.turns_at(log) {
        Seq::<AmmView>::empty()
    } else {
        run.changed
    };
    lemma_noted_addresses(base, space.state[log.address]);
}

/// A log that no factory announces a pool with, of a contract that is not held, asks for nothing
/// and changes nothing.
pub proof fn law_other_log_asks_for_nothing(
    space: SpaceView,
    run: RunView,
    log: LogView,
    factories: Seq<FactoryView>,
)
    requires
        forall|i: int| 0 <= i < factories.len() ==> !is_announced_by(#[trigger] factories[i], log),
        !space.state.contains_key(log.address),
    ensures
        ({
            let (after, next, step) = taken_up(space, run, log, factories);
            &&& step == Step::Settled
            &&& same_but_cache(after, space)
            &&& addresses_of(next.changed).subset_of(addresses_of(run.changed))
        }),
{
    lemma_no_creation(factories, log);
    assert(addresses_of(Seq::<AmmView>::empty()) =~= Set::empty());
}

proof fn lemma_no_creation(factories: Seq<FactoryView>, log: LogView)
    requires
        forall|i: int| 0 <= i < factories.len() ==> !is_announced_by(#[trigger] factories[i], log),
    ensures
        is_no_creation(factories, log),
{
    assert forall|i: int| 0 <= i < factories.len() implies !announces(
        #[trigger] factories[i],
        log,
    ) by {
        assert(!is_announced_by(factories[i], log));
    }
}

/// Every log counts as one. At the first log of another block an unprotected pass remembers what
/// changed in the block before, under the number of that block, and goes on with the block of the
/// log; a protected pass stays with its block. The blocks of both passes stay as they are else.
pub proof fn law_changes_are_remembered_block_by_block(
    space: SpaceView,
    run: RunView,
    log: LogView,
    factories: Seq<FactoryView>,
)
    requires
        space.cache.len() <= CACHE_SIZE,
        log.block_number is Some,
    ensures
        ({
            let (after, next, step) = taken_up(space, run, log, factories);
            let change = StateChangeView {
                state_change: run.changed,
                block_number: run.block_number,
            };
            &&& next.position == run.position + 1
            &&& next.protected == run.protected
            &&& next.reset_block == run.reset_block
            &&& run.protected || log.block_number->0 == run.block_number ==> {
                &&& after.cache == space.cache
                &&& next.block_number == run.block_number
                &&& next.affected == run.affected
            }
            &&& !run.protected && log.block_number->0 != run.block_number ==> {
                &&& after.cache == (if space.cache.len() < CACHE_SIZE {
                    space.cache.push(change)
                } else {
                    space.cache.drop_first().push(change)
                })
                &&& next.block_number == log.block_number->0
                &&& next.affected == run.affected.union(addresses_of(run.changed))
            }
        }),
{
    let change = StateChangeView { state_change: run.changed, block_number: run.block_number };
    if space.cache.len() == CACHE_SIZE {
        assert(space.cache.push(change).drop_first() =~= space.cache.drop_first().push(change));
    }
}

/// After a log was applied to a held pool, of any protocol, the pool is held exactly as the log
/// left it, and no other pool has changed.
pub proof fn law_synced_pool_is_held_as_the_log_left_it(
    space: SpaceView,
    reset_block: u64,
    pool: Address,
    amm: AmmView,
)
    requires
        space.state.contains_key(pool),
    ensures
        ({
            let (after, result) = synced(space, reset_block, pool, amm, SyncOutcome::Synced);
            &&& result == Ok::<Step, StateSpaceError>(Step::Settled)
            &&& after.state == space.state.insert(pool, amm)
            &&& after.cache == space.cache
            &&& after.latest_block == space.latest_block
        }),
{
}

/// An error ends the pass with that very error; the pool is held as it was left and the indexes
/// are not told.
pub proof fn law_failed_pool_ends_the_pass(
    space: SpaceView,
    reset_block: u64,
    pool: Address,
    amm: AmmView,
    error: AMMError,
)
    requires
        space.state.contains_key(pool),
    ensures
        ({
            let (after, result) = synced(
                space,
                reset_block,
                pool,
                amm,
                SyncOutcome::Failed(error),
            );
            &&& result == Err::<Step, StateSpaceError>(StateSpaceError::AMMError(error))
            &&& after == (SpaceView { state: space.state.insert(pool, amm), ..space })
        }),
{
}

/// Applying a log to a pool that is not held is an underflow, and changes nothing.
pub proof fn law_pool_that_is_gone_is_an_underflow(
    space: SpaceView,
    reset_block: u64,
    pool: Address,
    amm: AmmView,
    outcome: SyncOutcome,
)
    requires
        !space.state.contains_key(pool),
    ensures
        synced(space, reset_block, pool, amm, outcome) == (
            space,
            Err::<Step, StateSpaceError>(
                StateSpaceError::AMMError(
                    AMMError::UniswapV3Error(UniswapV3Error::LiquidityUnderflow),
                ),
            ),
        ),
{
}

proof fn lemma_part_is_contained(
    message: Seq<char>,
    before: Seq<char>,
    part: Seq<char>,
    after: Seq<char>,
)
    requires
        message == before + part + after,
    ensures
        contains_text(message, part),
{
    let i = before.len() as int;
    assert(message.subrange(i, i + part.len()) =~= part);
}

proof fn lemma_contained_part(message: Seq<char>, part: Seq<char>)
    requires
        contains_text(message, part),
    ensures
        exists|before: Seq<char>, after: Seq<char>| message == #[trigger] (before + part + after),
{
    let i = choose|i: int|
        0 <= i <= message.len() - part.len() && #[trigger] message.subrange(i, i + part.len())
            == part;
    let (before, after) = (
        message.take(i),
        message.subrange(i + part.len(), message.len() as int),
    );
    assert forall|k: int| i <= k < i + part.len() implies message[k] == part[k - i] by {
        assert(message.subrange(i, i + part.len())[k - i] == part[k - i]);
    }
    assert(message =~= before + part + after);
}

/// A held pool that panicked with an underflow, whatever stands around the words, is read anew
/// from its factory if it is a concentrated liquidity pool of either kind; any other pool is
/// dropped.
pub proof fn law_underflow_resets_the_pool(
    space: SpaceView,
    reset_block: u64,
    pool: Address,
    amm: AmmView,
    message: String,
    before: Seq<char>,
    after: Seq<char>,
)
    requires
        space.state.contains_key(pool),
        message@ == before + "attempt to subtract with overflow"@ + after || message@ == before
            + "LiquidityUnderflow"@ + after,
    ensures
        ({
            let (space_after, result) = synced(
                space,
                reset_block,
                pool,
                amm,
                SyncOutcome::Panicked(message),
            );
            let concentrated = amm.pool is UniswapV3Pool || amm.pool is UniswapV3VariantPool;
            &&& concentrated ==> {
                &&& result is Ok && result->Ok_0 is ResetPool
                &&& is_reset_of(result->Ok_0->ResetPool_0, amm.pool, pool, reset_block)
                &&& space_after == (SpaceView { state: space.state.insert(pool, amm), ..space })
            }
            &&& !concentrated ==> {
                &&& result == Ok::<Step, StateSpaceError>(Step::Settled)
                &&& space_after.state == space.state.remove(pool)
                &&& space_after.cache == space.cache
                &&& space_after.latest_block == space.latest_block
            }
        }),
{
    if message@ == before + "attempt to subtract with overflow"@ + after {
        lemma_part_is_contained(message@, before, "attempt to subtract with overflow"@, after);
    } else {
        lemma_part_is_contained(message@, before, "LiquidityUnderflow"@, after);
    }
    assert(space.state.insert(pool, amm).remove(pool) =~= space.state.remove(pool));
}

/// A held pool, of any protocol, that panicked otherwise is dropped.
pub proof fn law_other_panic_drops_the_pool(
    space: SpaceView,
    reset_block: u64,
    pool: Address,
    amm: AmmView,
    message: String,
)
    requires
        space.state.contains_key(pool),
        forall|before: Seq<char>, after: Seq<char>|
            message@ != #[trigger] (before + "attempt to subtract with overflow"@ + after),
        forall|before: Seq<char>, after: Seq<char>|
            message@ != #[trigger] (before + "LiquidityUnderflow"@ + after),
    ensures
        ({
            let (after, result) = synced(
                space,
                reset_block,
                pool,
                amm,
                SyncOutcome::Panicked(message),
            );
            &&& result == Ok::<Step, StateSpaceError>(Step::Settled)
            &&& after.state == space.state.remove(pool)
            &&& after.cache == space.cache
            &&& after.latest_block == space.latest_block
        }),
{
    if contains_text(message@, "attempt to subtract with overflow"@) {
        lemma_contained_part(message@, "attempt to subtract with overflow"@);
    }
    if contains_text(message@, "LiquidityUnderflow"@) {
        lemma_contained_part(message@, "LiquidityUnderflow"@);
    }
    assert(space.state.insert(pool, amm).remove(pool) =~= space.state.remove(pool));
}

/// A pool can be made anew exactly if it is held and is a concentrated liquidity pool of either
/// kind, and then from its own factory and as of the block asked for.
pub proof fn law_reset_goes_by_the_held_pool(space: SpaceView, pool: Address, block_number: u64)
    ensures
        space.reset_of(pool, block_number) is Some <==> space.state.contains_key(pool) && (
        space.state[pool].pool is UniswapV3Pool || space.state[pool].pool is UniswapV3VariantPool),
        space.reset_of(pool, block_number) matches Some(reset) ==> is_reset_of(
            reset,
            space.state[pool].pool,
            pool,
            block_number,
        ),
{
}

/// A pool that was read anew is held as it was read and reported; one that could not be read is
/// no longer held. No other pool changes.
pub proof fn law_pool_is_held_as_it_was_read_anew(
    space: SpaceView,
    run: RunView,
    pool: Address,
    amm: AmmView,
)
    ensures
        ({
            let (after, next) = mended(space, run, pool, Some(amm));
            &&& after.state == space.state.insert(pool, amm)
            &&& after.cache == space.cache
            &&& after.latest_block == space.latest_block
            &&& next == (RunView { affected: run.affected.insert(pool), ..run })
        }),
        ({
            let (after, next) = mended(space, run, pool, None);
            &&& after.state == space.state.remove(pool)
            &&& after.cache == space.cache
            &&& after.latest_block == space.latest_block
            &&& next == run
        }),
{
    assert(!space.state.contains_key(pool) ==> space.state.remove(pool) =~= space.state);
}

/// A pool of any protocol that was created and initialised is held and reported; one that was not
/// leaves everything as it was.
pub proof fn law_created_pool_is_held(
    space: SpaceView,
    run: RunView,
    factory: usize,
    reply: Reply,
    address: Address,
    amm: AmmView,
)
    requires
        reply.created == Some((address, amm)) || reply.created is None,
    ensures
        ({
            let (after, next) = settled(space, run, Step::CreatePool(factory), reply);
            &&& reply.created is None ==> after == space && next == run
            &&& reply.created is Some ==> {
                &&& after.state == space.state.insert(address, amm)
                &&& after.cache == space.cache
                &&& after.latest_block == space.latest_block
                &&& next == (RunView { affected: run.affected.insert(address), ..run })
            }
        }),
{
}

/// A pool is filed under a key and a pair in both spaces or in neither.
pub open spec fn is_filed_alike(
    a: SpaceView,
    b: SpaceView,
    pool: Address,
    key: Seq<char>,
    pair: (Seq<char>, Seq<char>),
) -> bool {
    &&& pools_under(a.token_to_pools, key).contains(pool) == pools_under(
        b.token_to_pools,
        key,
    ).contains(pool)
    &&& pools_under(a.token_pair_to_pools, pair).contains(pool) == pools_under(
        b.token_pair_to_pools,
        pair,
    ).contains(pool)
}

/// Replacing, dropping or creating a pool leaves every other pool under the keys that it had.
pub proof fn law_other_pools_stay_filed(
    space: SpaceView,
    pool: Address,
    amm: AmmView,
    other: Address,
    key: Seq<char>,
    pair: (Seq<char>, Seq<char>),
)
    requires
        other != pool,
    ensures
        is_filed_alike(space.replaced(pool, amm), space, other, key, pair),
        is_filed_alike(space.dropped(pool), space, other, key, pair),
        is_filed_alike(space.held(pool, amm).indexed(pool, amm), space, other, key, pair),
{
}

/// A pool that cannot be initialised is tried three more times, each time one second later, at
/// the same block, and is given up after the fourth failure.
pub proof fn law_pool_is_tried_four_times(request: InitRequest, count: nat)
    requires
        request.retries == 0,
    ensures
        count >= 4 ==> after_failures(request, count) == InitStep::GivenUp,
        1 <= count <= 3 ==> (after_failures(request, count) matches InitStep::Retry(next) && {
            &&& next.address == request.address
            &&& next.block_number == request.block_number
            &&& next.retries == count
            &&& next.delay_secs == 1
        }),
{
    law_retries_are_bounded(request, count);
}

proof fn lemma_noted_addresses(amms: Seq<AmmView>, amm: AmmView)
    ensures
        addresses_of(noted(amms, amm)) == addresses_of(amms).insert(amm.address),
{
    let before = amms.map_values(|a: AmmView| a.address);
    let after = amms.push(amm).map_values(|a: AmmView| a.address);
    assert(after =~= before.push(amm.address));
    lemma_push_to_set(before, amm.address);
    assert(addresses_of(noted(amms, amm)) =~= addresses_of(amms).insert(amm.address));
}

/// The log at `at` makes the pass report `pool`: it is a log of that pool while it is held, or it
/// announces the pool, which is then initialised.
pub open spec fn is_reported_for(
    start: SpaceView,
    run: RunView,
    logs: Seq<LogView>,
    factories: Seq<FactoryView>,
    replies: Seq<Reply>,
    at: int,
    pool: Address,
) -> bool {
    if exists|i: int| 0 <= i < factories.len() && is_announced_by(#[trigger] factories[i], logs[at]) {
        replies[at].created is Some && (replies[at].created->0).0 == pool
    } else {
        &&& logs[at].address == pool
        &&& ran(start, run, logs.take(at), factories, replies).0.state.contains_key(pool)
    }
}

proof fn lemma_reported_by_one_log(
    space: SpaceView,
    run: RunView,
    log: LogView,
    factories: Seq<FactoryView>,
    reply: Reply,
    pool: Address,
)
    requires
        is_well_keyed(space.state),
        is_sound(log, reply),
        factories.len() <= usize::MAX,
    ensures
        ({
            let (taken, taken_run, step) = taken_up(space, run, log, factories);
            let (after, next) = settled(taken, taken_run, step, reply);
            let announced = exists|i: int|
                0 <= i < factories.len() && is_announced_by(#[trigger] factories[i], log);
            let reported = if announced {
                reply.created is Some && (reply.created->0).0 == pool
            } else {
                log.address == pool && space.state.contains_key(pool)
            };
            &&& is_well_keyed(after.state)
            &&& next.closed().affected.contains(pool) <==> run.closed().affected.contains(pool)
                || reported
        }),
{
    let (taken, taken_run, step) = taken_up(space, run, log, factories);
    assert(addresses_of(Seq::<AmmView>::empty()) =~= Set::empty());
    lemma_noted_addresses(run.changed, space.state[log.address]);
    lemma_noted_addresses(Seq::empty(), space.state[log.address]);
    if exists|i: int| 0 <= i < factories.len() && is_announced_by(#[trigger] factories[i], log) {
        let i = choose|i: int|
            0 <= i < factories.len() && is_announced_by(#[trigger] factories[i], log);
        assert(announces(factories[i], log));
        assert(step is CreatePool);
    } else {
        lemma_no_creation(factories, log);
    }
}

/// A pass reports exactly the pools that a log of theirs reached while they were held, and those
/// that were created; each of them, and no other.
pub proof fn law_pass_reports_exactly_the_pools_it_reached(
    start: SpaceView,
    run: RunView,
    logs: Seq<LogView>,
    factories: Seq<FactoryView>,
    replies: Seq<Reply>,
    pool: Address,
)
    requires
        is_well_keyed(start.state),
        run == RunView::started(run.protected, run.block_number, run.reset_block),
        logs.len() <= replies.len(),
        factories.len() <= usize::MAX,
        forall|i: int| 0 <= i < logs.len() ==> is_sound(#[trigger] logs[i], replies[i]),
    ensures
        ran(start, run, logs, factories, replies).1.closed().affected.contains(pool) <==> exists|
            at: int,
        |
            0 <= at < logs.len() && #[trigger] is_reported_for(
                start,
                run,
                logs,
                factories,
                replies,
                at,
                pool,
            ),
{
    lemma_reported(start, run, logs, factories, replies, pool);
}

proof fn lemma_reported(
    start: SpaceView,
    run: RunView,
    logs: Seq<LogView>,
    factories: Seq<FactoryView>,
    replies: Seq<Reply>,
    pool: Address,
)
    requires
        is_well_keyed(start.state),
        run == RunView::started(run.protected, run.block_number, run.reset_block),
        logs.len() <= replies.len(),
        factories.len() <= usize::MAX,
        forall|i: int| 0 <= i < logs.len() ==> is_sound(#[trigger] logs[i], replies[i]),
    ensures
        is_well_keyed(ran(start, run, logs, factories, replies).0.state),
        ran(start, run, logs, factories, replies).1.closed().affected.contains(pool) <==> exists|
            at: int,
        |
            0 <= at < logs.len() && #[trigger] is_reported_for(
                start,
                run,
                logs,
                factories,
                replies,
                at,
                pool,
            ),
    decreases logs.len(),
{
    if logs.len() == 0 {
        assert(addresses_of(run.changed) =~= Set::empty());
    } else {
        let init = logs.drop_last();
        let last = logs.len() - 1;
        assert forall|i: int| 0 <= i < init.len() implies is_sound(
            #[trigger] init[i],
            replies[i],
        ) by {
            assert(is_sound(logs[i], replies[i]));
        }
        lemma_reported(start, run, init, factories, replies, pool);
        let (space, now) = ran(start, run, init, factories, replies);
        assert(is_sound(logs[last], replies[last]));
        lemma_reported_by_one_log(space, now, logs[last], factories, replies[last], pool);
        assert(logs.take(last) =~= init);
        assert forall|at: int| 0 <= at < last implies is_reported_for(
            start,
            run,
            init,
            factories,
            replies,
            at,
            pool,
        ) == #[trigger] is_reported_for(start, run, logs, factories, replies, at, pool) by {
            assert(init.take(at) =~= logs.take(at));
            assert(init[at] == logs[at]);
        }
        if exists|at: int|
            0 <= at < init.len() && #[trigger] is_reported_for(
                start,
                run,
                init,
                factories,
                replies,
                at,
                pool,
            ) {
            let at = choose|at: int|
                0 <= at < init.len() && #[trigger] is_reported_for(
                    start,
                    run,
                    init,
                    factories,
                    replies,
                    at,
                    pool,
                );
            assert(is_reported_for(start, run, logs, factories, replies, at, pool));
        }
        if is_reported_for(start, run, logs, factories, replies, last, pool) {
            assert(0 <= last < logs.len());
        }
    }
}

} // verus!
