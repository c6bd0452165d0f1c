//! When the indexes are in step with the pools that are held.
use crate::amm::AmmView;
use crate::cache::{kept, undone};
use crate::error::AMMError;
use crate::factory::FactoryView;
use crate::index::{lemma_linked_none, linked, only_pool, pools_under, unlinked};
use crate::pass::{applied, finished, followed, is_sound, ran, space_at, Pass, Reply};
use crate::primitives::Address;
use crate::space::{
    index_of_state, lemma_index_of_insert, lemma_index_of_remove, pair_index_of,
    pair_keys, proper_pair_keys, proper_token_keys, token_index_of, token_keys, SpaceView,
};
use crate::sync::{synced, taken_up, LogView, RunView, Step, SyncOutcome};
use vstd::prelude::*;

verus! {

/// Every key of an index has at least one pool.
pub open spec fn no_key_is_idle<M>(index: Map<M, Set<Address>>) -> bool {
    forall|k: M| #[trigger] index.contains_key(k) ==> exists|a: Address| index[k].contains(a)
}

/// No key is left without a pool, whatever is filed and taken out.
pub proof fn law_no_key_is_idle<M>(index: Map<M, Set<Address>>, keys: Set<M>, pool: Address)
    requires
        no_key_is_idle(index),
    ensures
        no_key_is_idle(linked(index, keys, pool)),
        no_key_is_idle(unlinked(index, keys, pool)),
{
    let more = linked(index, keys, pool);
    assert forall|k: M| #[trigger] more.contains_key(k) implies exists|a: Address|
        more[k].contains(a) by {
        if keys.contains(k) {
            assert(more[k].contains(pool));
        } else {
            let a = choose|a: Address| index[k].contains(a);
            assert(more[k].contains(a));
        }
    }
    let fewer = unlinked(index, keys, pool);
    assert forall|k: M| #[trigger] fewer.contains_key(k) implies exists|a: Address|
        fewer[k].contains(a) by {
        if keys.contains(k) {
            let a = choose|a: Address| index[k].contains(a) && a != pool;
            assert(fewer[k].contains(a));
        } else {
            let a = choose|a: Address| index[k].contains(a);
            assert(fewer[k].contains(a));
        }
    }
}

/// Taking a pool out again undoes filing it, if it was not filed before.
pub proof fn law_removal_undoes_addition<M>(
    index: Map<M, Set<Address>>,
    keys: Set<M>,
    pool: Address,
)
    requires
        no_key_is_idle(index),
        forall|k: M| #[trigger] keys.contains(k) ==> !pools_under(index, k).contains(pool),
    ensures
        unlinked(linked(index, keys, pool), keys, pool) == index,
{
    let more = linked(index, keys, pool);
    let back = unlinked(more, keys, pool);
    assert forall|k: M| back.contains_key(k) <==> index.contains_key(k) by {
        if index.contains_key(k) {
            let a = choose|a: Address| index[k].contains(a);
            assert(more[k].contains(a));
            if keys.contains(k) {
                assert(a != pool);
                assert(!only_pool(more[k], pool));
            }
        } else if keys.contains(k) {
            assert(only_pool(more[k], pool));
        }
    }
    assert forall|k: M| back.contains_key(k) implies back[k] == index[k] by {
        assert(back[k] =~= index[k]);
    }
    assert(back =~= index);
}

/// An empty space is in step.
pub proof fn law_empty_space_is_in_step()
    ensures
        SpaceView::empty().is_in_step(),
{
    assert(token_index_of(Map::empty()) =~= Map::empty());
    assert(pair_index_of(Map::empty()) =~= Map::empty());
}

proof fn lemma_withdrawn(space: SpaceView, pool: Address)
    requires
        space.is_in_step(),
    ensures
        space.withdrawn(pool).token_to_pools == token_index_of(space.state.remove(pool)),
        space.withdrawn(pool).token_pair_to_pools == pair_index_of(space.state.remove(pool)),
{
    if space.state.contains_key(pool) {
        let amm = space.state[pool];
        lemma_index_of_remove(
            space.state,
            |amm: AmmView| proper_token_keys(amm),
            pool,
            token_keys(amm).to_set(),
        );
        lemma_index_of_remove(
            space.state,
            |amm: AmmView| proper_pair_keys(amm),
            pool,
            pair_keys(amm),
        );
    } else {
        assert(space.state.remove(pool) =~= space.state);
    }
}

/// Replacing a pool keeps the indexes in step.
pub proof fn law_replacing_keeps_step(space: SpaceView, pool: Address, amm: AmmView)
    requires
        space.is_in_step(),
    ensures
        space.replaced(pool, amm).is_in_step(),
{
    lemma_withdrawn(space, pool);
    let bare = space.state.remove(pool);
    lemma_index_of_insert(bare, |amm: AmmView| proper_token_keys(amm), pool, amm);
    lemma_index_of_insert(bare, |amm: AmmView| proper_pair_keys(amm), pool, amm);
    lemma_linked_none(token_index_of(bare), pool);
    lemma_linked_none(pair_index_of(bare), pool);
    assert(bare.insert(pool, amm) =~= space.state.insert(pool, amm));
}

/// Dropping a pool keeps the indexes in step.
pub proof fn law_dropping_keeps_step(space: SpaceView, pool: Address)
    requires
        space.is_in_step(),
    ensures
        space.dropped(pool).is_in_step(),
{
    lemma_withdrawn(space, pool);
}

/// Putting former pools back keeps the indexes in step.
pub proof fn law_restoring_keeps_step(space: SpaceView, amms: Seq<AmmView>)
    requires
        space.is_in_step(),
    ensures
        space.restored(amms).is_in_step(),
    decreases amms.len(),
{
    if amms.len() > 0 {
        law_restoring_keeps_step(space, amms.drop_last());
        law_replacing_keeps_step(
            space.restored(amms.drop_last()),
            amms.last().address,
            amms.last(),
        );
    }
}

/// The beginning of a pass keeps the indexes in step, also where it undoes blocks.
pub proof fn law_reorganizing_keeps_step(space: SpaceView, block_number: u64)
    requires
        space.is_in_step(),
    ensures
        space.reorganized(block_number).is_in_step(),
{
    if space.latest_block >= block_number {
        law_restoring_keeps_step(
            SpaceView { cache: kept(space.cache, block_number), ..space },
            undone(space.cache, block_number),
        );
    }
}

/// Taking up a log keeps the indexes in step.
pub proof fn law_taking_up_keeps_step(
    space: SpaceView,
    run: RunView,
    log: LogView,
    factories: Seq<FactoryView>,
)
    requires
        space.is_in_step(),
    ensures
        taken_up(space, run, log, factories).0.is_in_step(),
{
    let turned = if run.turns_at(log) {
        space.remembered(run.changed, run.block_number)
    } else {
        space
    };
    law_dropping_keeps_step(turned, log.address);
}

/// A pool that has been synced keeps the indexes in step.
pub proof fn law_syncing_keeps_step(
    space: SpaceView,
    reset_block: u64,
    pool: Address,
    amm: AmmView,
)
    requires
        space.is_in_step(),
    ensures
        synced(space, reset_block, pool, amm, SyncOutcome::Synced).0.is_in_step(),
{
    law_replacing_keeps_step(space, pool, amm);
}

/// A pool that an error left halfway keeps the indexes in step exactly if it belongs under the
/// same keys as before.
pub proof fn law_failing_keeps_step(
    space: SpaceView,
    reset_block: u64,
    pool: Address,
    amm: AmmView,
    error: AMMError,
)
    requires
        space.is_in_step(),
        space.state.contains_key(pool),
    ensures
        synced(space, reset_block, pool, amm, SyncOutcome::Failed(error)).0.is_in_step() <==> {
            &&& proper_token_keys(amm) == proper_token_keys(space.state[pool])
            &&& proper_pair_keys(amm) == proper_pair_keys(space.state[pool])
        },
{
    lemma_held_in_step(space.state, |a: AmmView| proper_token_keys(a), pool, amm);
    lemma_held_in_step(space.state, |a: AmmView| proper_pair_keys(a), pool, amm);
}

proof fn lemma_held_in_step<M>(
    state: Map<Address, AmmView>,
    keys: spec_fn(AmmView) -> Set<M>,
    pool: Address,
    amm: AmmView,
)
    requires
        state.contains_key(pool),
    ensures
        index_of_state(state, keys) == index_of_state(state.insert(pool, amm), keys) <==> keys(amm)
            == keys(state[pool]),
{
    let before = index_of_state(state, keys);
    let after = index_of_state(state.insert(pool, amm), keys);
    if keys(amm) == keys(state[pool]) {
        lemma_index_of_insert(state, keys, pool, amm);
        lemma_relink(state, keys, pool, keys(amm));
    } else if before == after {
        let (new, old_keys) = (keys(amm), keys(state[pool]));
        assert forall|k: M| #[trigger] new.contains(k) <==> old_keys.contains(k) by {
            if keys(amm).contains(k) {
                assert(state.insert(pool, amm).contains_key(pool));
                assert(after.contains_key(k) && after[k].contains(pool));
            }
            if keys(state[pool]).contains(k) {
                assert(before.contains_key(k) && before[k].contains(pool));
            }
        }
        assert(new =~= old_keys);
    }
}

/// A pool that is filed under its keys already is not filed anew.
proof fn lemma_relink<M>(
    state: Map<Address, AmmView>,
    keys: spec_fn(AmmView) -> Set<M>,
    pool: Address,
    own: Set<M>,
)
    requires
        state.contains_key(pool),
        own == keys(state[pool]),
    ensures
        linked(index_of_state(state, keys), own, pool) == index_of_state(state, keys),
{
    let index = index_of_state(state, keys);
    let again = linked(index, own, pool);
    assert forall|k: M| again.contains_key(k) <==> index.contains_key(k) by {
        if own.contains(k) {
            assert(state.contains_key(pool) && keys(state[pool]).contains(k));
        }
    }
    assert forall|k: M| again.contains_key(k) implies again[k] == index[k] by {
        assert(again[k] =~= index[k]);
    }
    assert(again =~= index);
}

/// Holding and indexing a new pool keeps the indexes in step exactly if a pool that was held
/// under the same address belongs under no key that the new one does not belong under.
pub proof fn law_initializing_keeps_step(space: SpaceView, pool: Address, amm: AmmView)
    requires
        space.is_in_step(),
    ensures
        space.held(pool, amm).indexed(pool, amm).is_in_step() <==> (space.state.contains_key(pool)
            ==> {
            &&& proper_token_keys(space.state[pool]).subset_of(proper_token_keys(amm))
            &&& proper_pair_keys(space.state[pool]).subset_of(proper_pair_keys(amm))
        }),
{
    let after = space.held(pool, amm).indexed(pool, amm);
    lemma_linked_none(space.token_to_pools, pool);
    lemma_linked_none(space.token_pair_to_pools, pool);
    assert(after.token_to_pools == linked(space.token_to_pools, proper_token_keys(amm), pool));
    assert(after.token_pair_to_pools == linked(
        space.token_pair_to_pools,
        proper_pair_keys(amm),
        pool,
    ));
    lemma_insert_in_step(space.state, |a: AmmView| proper_token_keys(a), pool, amm);
    lemma_insert_in_step(space.state, |a: AmmView| proper_pair_keys(a), pool, amm);
}

proof fn lemma_insert_in_step<M>(
    state: Map<Address, AmmView>,
    keys: spec_fn(AmmView) -> Set<M>,
    pool: Address,
    amm: AmmView,
)
    ensures
        (linked(index_of_state(state, keys), keys(amm), pool) == index_of_state(
            state.insert(pool, amm),
            keys,
        )) <==> (state.contains_key(pool) ==> keys(state[pool]).subset_of(keys(amm))),
{
    let before = index_of_state(state, keys);
    let after = index_of_state(state.insert(pool, amm), keys);
    if state.contains_key(pool) && !keys(state[pool]).subset_of(keys(amm)) {
        let k = choose|k: M| #[trigger]
            keys(state[pool]).contains(k) && !keys(amm).contains(k);
        assert(before.contains_key(k) && before[k].contains(pool));
        assert(linked(before, keys(amm), pool)[k].contains(pool));
        if after.contains_key(k) {
            assert(!after[k].contains(pool));
        }
    } else {
        lemma_index_of_insert(state, keys, pool, amm);
    }
}

/// A pool that panicked halfway through a log and is then read anew, or dropped, keeps the
/// indexes in step, provided that the log has not changed which tokens it trades.
proof fn lemma_left_halfway(space: SpaceView, pool: Address, left: AmmView, amm: AmmView)
    requires
        space.is_in_step(),
        space.state.contains_key(pool),
        left.tokens() == space.state[pool].tokens(),
    ensures
        space.held(pool, left).dropped(pool).is_in_step(),
        space.held(pool, left).replaced(pool, amm).is_in_step(),
{
    let held = space.held(pool, left);
    assert(token_keys(left) == token_keys(space.state[pool]));
    assert(held.state.remove(pool) =~= space.state.remove(pool));
    assert(held.state.insert(pool, amm) =~= space.state.insert(pool, amm));
    law_dropping_keeps_step(space, pool);
    law_replacing_keeps_step(space, pool, amm);
    assert(held.dropped(pool) =~= space.dropped(pool));
    assert(held.replaced(pool, amm) =~= space.replaced(pool, amm));
}

/// What a reply must not do for the indexes to stay in step: leave a pool halfway with other
/// tokens, or create a pool where one is held that belongs under further keys.
pub open spec fn keeps_tokens(space: SpaceView, log: LogView, reply: Reply) -> bool {
    &&& space.state.contains_key(log.address) && reply.outcome is Panicked ==> reply.amm.tokens()
        == space.state[log.address].tokens()
    &&& reply.created matches Some((address, amm)) ==> space.state.contains_key(address) ==> {
        &&& proper_token_keys(space.state[address]).subset_of(proper_token_keys(amm))
        &&& proper_pair_keys(space.state[address]).subset_of(proper_pair_keys(amm))
    }
}

/// A log, with all that it leads to, keeps the indexes in step, unless it ends the pass.
pub proof fn law_log_keeps_step(
    space: SpaceView,
    run: RunView,
    log: LogView,
    factories: Seq<FactoryView>,
    reply: Reply,
)
    requires
        space.is_in_step(),
        keeps_tokens(space, log, reply),
        !(reply.outcome is Failed),
    ensures
        applied(space, run, log, factories, reply).0.is_in_step(),
{
    let (taken, taken_run, step) = taken_up(space, run, log, factories);
    law_taking_up_keeps_step(space, run, log, factories);
    match step {
        Step::Settled => {},
        Step::CreatePool(_) => {
            if let Some((address, amm)) = reply.created {
                law_initializing_keeps_step(taken, address, amm);
            }
        },
        Step::SyncPool(pool) => {
            match reply.outcome {
                SyncOutcome::Synced => {
                    law_replacing_keeps_step(taken, pool, reply.amm);
                },
                SyncOutcome::Failed(_) => {},
                SyncOutcome::Panicked(_) => {
                    let fresh = match reply.fresh {
                        Some(amm) => amm,
                        None => reply.amm,
                    };
                    lemma_left_halfway(taken, pool, reply.amm, fresh);
                },
            }
        },
        Step::ResetPool(reset) => {
            law_dropping_keeps_step(taken, reset.address);
            if let Some(amm) = reply.fresh {
                law_replacing_keeps_step(taken, reset.address, amm);
            }
        },
    }
}

/// A whole pass keeps the indexes in step, unless an error ends it.
pub proof fn law_pass_keeps_step(
    space: SpaceView,
    run: RunView,
    logs: Seq<LogView>,
    factories: Seq<FactoryView>,
    replies: Seq<Reply>,
)
    requires
        space.is_in_step(),
        logs.len() <= replies.len(),
        forall|i: int|
            0 <= i < logs.len() ==> {
                &&& keeps_tokens(
                    ran(space, run, logs.take(i), factories, replies).0,
                    #[trigger] logs[i],
                    replies[i],
                )
                &&& !(replies[i].outcome is Failed)
            },
    ensures
        ran(space, run, logs, factories, replies).0.is_in_step(),
        finished(
            ran(space, run, logs, factories, replies).0,
            ran(space, run, logs, factories, replies).1,
        ).is_in_step(),
    decreases logs.len(),
{
    if logs.len() > 0 {
        let init = logs.drop_last();
        let at = logs.len() - 1;
        assert forall|i: int| 0 <= i < init.len() implies {
            &&& keeps_tokens(
                ran(space, run, init.take(i), factories, replies).0,
                #[trigger] init[i],
                replies[i],
            )
            &&& !(replies[i].outcome is Failed)
        } by {
            assert(init.take(i) =~= logs.take(i));
            assert(logs[i] == init[i]);
        }
        law_pass_keeps_step(space, run, init, factories, replies);
        let (then, then_run) = ran(space, run, init, factories, replies);
        assert(logs.take(at) =~= init);
        assert(keeps_tokens(then, logs[at], replies[at]));
        law_log_keeps_step(then, then_run, logs[at], factories, replies[at]);
    }
}

/// No reply of a pass that starts from `space` puts the indexes out of step.
pub open spec fn pass_keeps_tokens(space: SpaceView, pass: Pass) -> bool {
    forall|i: int|
        0 <= i < pass.logs.len() ==> keeps_tokens(
            pass.reached(space, i).0,
            #[trigger] pass.logs[i],
            pass.replies[i],
        )
}

/// No reply of these passes puts the indexes out of step.
pub open spec fn history_keeps_tokens(before: SpaceView, passes: Seq<Pass>) -> bool {
    forall|i: int|
        0 <= i < passes.len() ==> pass_keeps_tokens(
            followed(before, passes.take(i)),
            #[trigger] passes[i],
        )
}

/// At any log of a pass the indexes are in step, and so they are if the pass ends there.
proof fn lemma_pass_stays_in_step(space: SpaceView, pass: Pass, count: int)
    requires
        space.is_in_step(),
        pass.is_proper(),
        pass_keeps_tokens(space, pass),
        0 <= count <= pass.logs.len(),
    ensures
        pass.reached(space, count).0.is_in_step(),
        finished(pass.reached(space, count).0, pass.reached(space, count).1).is_in_step(),
{
    let start = pass.begun(space);
    law_reorganizing_keeps_step(
        SpaceView { latest_block: pass.latest_block, ..space },
        pass.run.block_number,
    );
    let logs = pass.logs.take(count);
    assert forall|i: int| 0 <= i < logs.len() implies {
        &&& keeps_tokens(
            ran(start, pass.run, logs.take(i), pass.factories, pass.replies).0,
            #[trigger] logs[i],
            pass.replies[i],
        )
        &&& !(pass.replies[i].outcome is Failed)
    } by {
        assert(logs.take(i) =~= pass.logs.take(i));
        assert(keeps_tokens(pass.reached(space, i).0, pass.logs[i], pass.replies[i]));
        assert(is_sound(pass.logs[i], pass.replies[i]));
    }
    law_pass_keeps_step(start, pass.run, logs, pass.factories, pass.replies);
}

/// The indexes stay in step however many passes follow the chain, whether it is reorganised or
/// not, and at every log.
pub proof fn law_history_keeps_step(before: SpaceView, passes: Seq<Pass>, at: int, count: int)
    requires
        before.is_in_step(),
        forall|i: int| 0 <= i < passes.len() ==> (#[trigger] passes[i]).is_proper(),
        history_keeps_tokens(before, passes),
    ensures
        followed(before, passes).is_in_step(),
        0 <= at < passes.len() && 0 <= count <= passes[at].logs.len() ==> space_at(
            before,
            passes,
            at,
            count,
        ).is_in_step(),
    decreases passes.len(),
{
    if passes.len() > 0 {
        let init = passes.drop_last();
        let last = passes[passes.len() - 1];
        assert forall|i: int| 0 <= i < init.len() implies {
            &&& (#[trigger] init[i]).is_proper()
            &&& pass_keeps_tokens(followed(before, init.take(i)), init[i])
        } by {
            assert(passes[i].is_proper());
            assert(init.take(i) =~= passes.take(i));
        }
        law_history_keeps_step(before, init, at, count);
        assert(passes.take(passes.len() - 1) =~= init);
        assert(last.is_proper());
        lemma_pass_stays_in_step(followed(before, init), last, last.logs.len() as int);
        if at == passes.len() - 1 && 0 <= count <= last.logs.len() {
            lemma_pass_stays_in_step(followed(before, init), last, count);
        } else if 0 <= at < passes.len() {
            assert(init.take(at) =~= passes.take(at));
        }
    }
}

/// A log of a contract that is neither a factory nor a pool that is held asks for nothing and
/// changes neither the pools nor the indexes.
pub proof fn law_foreign_log_is_ignored(
    space: SpaceView,
    run: RunView,
    log: LogView,
    factories: Seq<FactoryView>,
)
    requires
        !space.state.contains_key(log.address),
        forall|i: int| 0 <= i < factories.len() ==> #[trigger] factories[i].address != log.address,
    ensures
        taken_up(space, run, log, factories).2 == Step::Settled,
        taken_up(space, run, log, factories).0 == (SpaceView {
            cache: taken_up(space, run, log, factories).0.cache,
            ..space
        }),
{
}

} // verus!
