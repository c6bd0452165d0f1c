//! Undoing blocks: what a pass has changed, a later one can put back.
use crate::amm::AmmView;
use crate::cache::{cached, kept, undone, StateChangeView};
use crate::factory::FactoryView;
use crate::index_laws::{
    history_keeps_tokens, law_foreign_log_is_ignored, law_history_keeps_step,
    law_reorganizing_keeps_step,
};
use crate::pass::{
    applied, created_after, finished, followed, history_splits_at, is_history, is_sound,
    is_well_keyed, ran, settled, space_at, Pass, Reply,
};
use crate::primitives::Address;
use crate::space::{SpaceView, CACHE_SIZE};
use crate::sync::{addresses_of, noted, taken_up, LogView, RunView, Step};
use vstd::prelude::*;

verus! {

/// The last of `amms` with this address.
pub open spec fn last_at(amms: Seq<AmmView>, pool: Address) -> Option<AmmView>
    decreases amms.len(),
{
    if amms.len() == 0 {
        None
    } else if amms.last().address == pool {
        Some(amms.last())
    } else {
        last_at(amms.drop_last(), pool)
    }
}

/// What is held under `pool`.
pub open spec fn held_at(state: Map<Address, AmmView>, pool: Address) -> Option<AmmView> {
    if state.contains_key(pool) {
        Some(state[pool])
    } else {
        None
    }
}

/// What is held under `pool` once `amms` have been put back.
pub open spec fn held_after(
    state: Map<Address, AmmView>,
    amms: Seq<AmmView>,
    pool: Address,
) -> Option<AmmView> {
    match last_at(amms, pool) {
        Some(amm) => Some(amm),
        None => held_at(state, pool),
    }
}

/// Of former pools with the same address the last one that is put back stays; every other pool
/// is left alone.
pub proof fn law_restoring_puts_the_last_back(
    space: SpaceView,
    amms: Seq<AmmView>,
    pool: Address,
)
    ensures
        held_at(space.restored(amms).state, pool) == held_after(space.state, amms, pool),
        space.restored(amms).cache == space.cache,
        space.restored(amms).latest_block == space.latest_block,
    decreases amms.len(),
{
    if amms.len() > 0 {
        law_restoring_puts_the_last_back(space, amms.drop_last(), pool);
    }
}

proof fn lemma_last_at_concat(first: Seq<AmmView>, second: Seq<AmmView>, pool: Address)
    ensures
        last_at(first + second, pool) == (match last_at(second, pool) {
            Some(amm) => Some(amm),
            None => last_at(first, pool),
        }),
    decreases second.len(),
{
    if second.len() > 0 {
        assert((first + second).drop_last() =~= first + second.drop_last());
        lemma_last_at_concat(first, second.drop_last(), pool);
    } else {
        assert(first + second =~= first);
    }
}

proof fn lemma_last_at_addresses(amms: Seq<AmmView>, pool: Address)
    ensures
        last_at(amms, pool) is Some <==> addresses_of(amms).contains(pool),
    decreases amms.len(),
{
    let addresses = amms.map_values(|amm: AmmView| amm.address);
    if amms.len() > 0 {
        let init = amms.drop_last();
        lemma_last_at_addresses(init, pool);
        let before = init.map_values(|amm: AmmView| amm.address);
        assert(addresses =~= before.push(amms.last().address));
        if before.contains(pool) {
            let i = before.index_of(pool);
            assert(addresses[i] == pool);
        }
        if amms.last().address == pool {
            assert(addresses[amms.len() - 1] == pool);
        }
        if addresses.contains(pool) {
            let i = addresses.index_of(pool);
            if i < init.len() {
                assert(before[i] == pool);
            }
        }
    }
}

/// A cache keeps the newest change and as many of those before it as it has room for, in order.
pub proof fn law_cache_keeps_the_newest(
    changes: Seq<StateChangeView>,
    change: StateChangeView,
    capacity: nat,
    at: int,
)
    requires
        changes.len() <= capacity,
    ensures
        ({
            let after = cached(changes, change, capacity);
            &&& after.len() == (if changes.len() < capacity {
                changes.len() + 1
            } else {
                capacity
            })
            &&& capacity > 0 ==> after.last() == change
            &&& 0 <= at < after.len() - 1 ==> after[at] == changes[at + changes.len() + 1
                - after.len()]
        }),
{
}

/// What was remembered last is handed back first and forgotten, if it is of the block to be undone
/// or later; otherwise nothing is handed back and nothing is forgotten.
pub proof fn law_newest_change_is_undone_first(
    changes: Seq<StateChangeView>,
    change: StateChangeView,
    block_number: u64,
)
    ensures
        undone(Seq::empty(), block_number).len() == 0,
        kept(Seq::empty(), block_number).len() == 0,
        change.block_number >= block_number ==> {
            &&& undone(changes.push(change), block_number) == change.state_change + undone(
                changes,
                block_number,
            )
            &&& kept(changes.push(change), block_number) == kept(changes, block_number)
        },
        change.block_number < block_number ==> {
            &&& undone(changes.push(change), block_number).len() == 0
            &&& kept(changes.push(change), block_number) == changes.push(change)
        },
{
    assert(changes.push(change).drop_last() =~= changes);
}

/// Undoing a block forgets the newest changes of that block and later, up to the first one that
/// is of an earlier block; those before it stay remembered, and so does the latest block.
pub proof fn law_undone_changes_are_forgotten(space: SpaceView, block_number: u64)
    ensures
        ({
            let back = space.unwound(block_number);
            let left = back.cache.len() as int;
            &&& left <= space.cache.len()
            &&& back.cache == space.cache.take(left)
            &&& left > 0 ==> space.cache[left - 1].block_number < block_number
            &&& forall|i: int|
                left <= i < space.cache.len() ==> (#[trigger] space.cache[i]).block_number
                    >= block_number
            &&& back.latest_block == space.latest_block
        }),
{
    let any: Address = vstd::pervasive::arbitrary();
    let bare = SpaceView { cache: kept(space.cache, block_number), ..space };
    law_restoring_puts_the_last_back(bare, undone(space.cache, block_number), any);
    lemma_kept(space.cache, block_number);
}

proof fn lemma_kept(changes: Seq<StateChangeView>, block_number: u64)
    ensures
        ({
            let left = kept(changes, block_number).len() as int;
            &&& left <= changes.len()
            &&& kept(changes, block_number) == changes.take(left)
            &&& left > 0 ==> changes[left - 1].block_number < block_number
            &&& forall|i: int|
                left <= i < changes.len() ==> (#[trigger] changes[i]).block_number >= block_number
        }),
    decreases changes.len(),
{
    if changes.len() > 0 && changes.last().block_number >= block_number {
        let init = changes.drop_last();
        lemma_kept(init, block_number);
        let left = kept(init, block_number).len() as int;
        assert(init.take(left) =~= changes.take(left));
        assert forall|i: int| left <= i < changes.len() implies (#[trigger] changes[i]).block_number
            >= block_number by {
            if i < init.len() {
                assert(init[i].block_number >= block_number);
            }
        }
    } else {
        assert(changes.take(changes.len() as int) =~= changes);
    }
}

/// No more changes are remembered than the cache has room for.
pub proof fn law_cache_is_bounded(
    changes: Seq<StateChangeView>,
    change: StateChangeView,
    block_number: u64,
)
    requires
        changes.len() <= CACHE_SIZE,
    ensures
        cached(changes, change, CACHE_SIZE as nat).len() <= CACHE_SIZE,
        kept(changes, block_number).len() <= changes.len(),
    decreases changes.len(),
{
    if changes.len() > 0 && changes.last().block_number >= block_number {
        law_cache_is_bounded(changes.drop_last(), change, block_number);
    }
}

/// Where the changes are in the order of their blocks, undoing a block forgets the changes of
/// that block and later, and no others.
pub proof fn law_unwinding_forgets_later_blocks(changes: Seq<StateChangeView>, block_number: u64)
    requires
        forall|i: int, j: int|
            0 <= i <= j < changes.len() ==> #[trigger] changes[i].block_number
                <= #[trigger] changes[j].block_number,
    ensures
        kept(changes, block_number) == changes.filter(
            |change: StateChangeView| change.block_number < block_number,
        ),
    decreases changes.len(),
{
    reveal(Seq::filter);
    let pred = |change: StateChangeView| change.block_number < block_number;
    if changes.len() > 0 {
        let init = changes.drop_last();
        assert forall|i: int, j: int| 0 <= i <= j < init.len() implies #[trigger] init[i].block_number
            <= #[trigger] init[j].block_number by {
            assert(changes[i].block_number <= changes[j].block_number);
        }
        law_unwinding_forgets_later_blocks(init, block_number);
        if changes.last().block_number < block_number {
            lemma_filter_all(changes, pred);
        }
    }
}

proof fn lemma_filter_all(
    changes: Seq<StateChangeView>,
    pred: spec_fn(StateChangeView) -> bool,
)
    requires
        forall|i: int| 0 <= i < changes.len() ==> pred(#[trigger] changes[i]),
    ensures
        changes.filter(pred) == changes,
    decreases changes.len(),
{
    reveal(Seq::filter);
    if changes.len() > 0 {
        lemma_filter_all(changes.drop_last(), pred);
        assert(changes.drop_last().push(changes.last()) =~= changes);
    }
}

/// Undoing the same block twice is the same as undoing it once.
pub proof fn law_unwinding_is_idempotent(space: SpaceView, block_number: u64)
    ensures
        space.unwound(block_number).unwound(block_number) == space.unwound(block_number),
{
    let once = space.unwound(block_number);
    let bare = SpaceView { cache: kept(space.cache, block_number), ..space };
    let any: Address = vstd::pervasive::arbitrary();
    law_restoring_puts_the_last_back(bare, undone(space.cache, block_number), any);
    lemma_nothing_left(space.cache, block_number);
    assert(once.cache == kept(space.cache, block_number));
}

proof fn lemma_nothing_left(changes: Seq<StateChangeView>, block_number: u64)
    ensures
        kept(kept(changes, block_number), block_number) == kept(changes, block_number),
        undone(kept(changes, block_number), block_number) == Seq::<AmmView>::empty(),
    decreases changes.len(),
{
    if changes.len() > 0 && changes.last().block_number >= block_number {
        lemma_nothing_left(changes.drop_last(), block_number);
    }
}

/// The changes that a pass has remembered by the end of `logs`, the oldest first.
pub open spec fn remembered_in(
    space: SpaceView,
    run: RunView,
    logs: Seq<LogView>,
    factories: Seq<FactoryView>,
    replies: Seq<Reply>,
) -> Seq<StateChangeView>
    decreases logs.len(),
{
    if logs.len() == 0 {
        Seq::empty()
    } else {
        let before = remembered_in(space, run, logs.drop_last(), factories, replies);
        let now = ran(space, run, logs.drop_last(), factories, replies).1;
        if now.turns_at(logs.last()) {
            before.push(
                StateChangeView { state_change: now.changed, block_number: now.block_number },
            )
        } else {
            before
        }
    }
}

/// The changes of a pass, with those of its last block.
pub open spec fn all_changes(changes: Seq<StateChangeView>, run: RunView) -> Seq<StateChangeView> {
    if run.changed.len() > 0 {
        changes.push(
            StateChangeView { state_change: run.changed, block_number: run.block_number },
        )
    } else {
        changes
    }
}

/// The changes that a pass remembers.
pub open spec fn changes_of_pass(space: SpaceView, pass: Pass) -> Seq<StateChangeView> {
    let start = pass.begun(space);
    all_changes(
        remembered_in(start, pass.run, pass.logs, pass.factories, pass.replies),
        ran(start, pass.run, pass.logs, pass.factories, pass.replies).1,
    )
}

/// The changes that several passes remember, the oldest first.
pub open spec fn changes_of(space: SpaceView, passes: Seq<Pass>) -> Seq<StateChangeView>
    decreases passes.len(),
{
    if passes.len() == 0 {
        Seq::empty()
    } else {
        let init = passes.drop_last();
        changes_of(space, init) + changes_of_pass(followed(space, init), passes.last())
    }
}

/// The changes of `block_number` and later.
pub open spec fn since(changes: Seq<StateChangeView>, block_number: u64) -> Seq<StateChangeView> {
    changes.filter(|change: StateChangeView| change.block_number >= block_number)
}

/// As many of the newest changes as the cache has room for.
pub open spec fn newest(changes: Seq<StateChangeView>) -> Seq<StateChangeView> {
    if changes.len() > CACHE_SIZE {
        changes.skip(changes.len() - CACHE_SIZE)
    } else {
        changes
    }
}

proof fn lemma_newest_push(changes: Seq<StateChangeView>, change: StateChangeView)
    ensures
        cached(newest(changes), change, CACHE_SIZE as nat) == newest(changes.push(change)),
{
    assert(cached(newest(changes), change, CACHE_SIZE as nat) =~= newest(changes.push(change)));
}

/// Every change is one of `first` or later.
spec fn are_since(changes: Seq<StateChangeView>, first: u64) -> bool {
    forall|i: int| 0 <= i < changes.len() ==> #[trigger] changes[i].block_number >= first
}

/// Every change is one of before `first`.
spec fn are_before(changes: Seq<StateChangeView>, first: u64) -> bool {
    forall|i: int| 0 <= i < changes.len() ==> #[trigger] changes[i].block_number < first
}

/// How many of the changes are older than `first`, where those come first.
spec fn parts_at(changes: Seq<StateChangeView>, cut: int, first: u64) -> bool {
    &&& 0 <= cut <= changes.len()
    &&& are_before(changes.take(cut), first)
    &&& are_since(changes.skip(cut), first)
}

proof fn lemma_parts(changes: Seq<StateChangeView>, cut: int, first: u64)
    requires
        parts_at(changes, cut, first),
    ensures
        since(changes, first) == changes.skip(cut),
    decreases changes.len(),
{
    reveal(Seq::filter);
    if changes.len() > 0 {
        let init = changes.drop_last();
        if cut < changes.len() {
            assert(init.take(cut) =~= changes.take(cut));
            assert(init.skip(cut) =~= changes.skip(cut).drop_last());
            assert(changes.skip(cut)[changes.len() - 1 - cut].block_number >= first);
            lemma_parts(init, cut, first);
            assert(changes.skip(cut) =~= init.skip(cut).push(changes.last()));
        } else {
            assert(init.take(cut - 1) =~= changes.take(cut).drop_last());
            assert(changes.take(cut)[changes.len() - 1].block_number < first);
            assert(init.skip(cut - 1) =~= Seq::empty());
            lemma_parts(init, cut - 1, first);
            assert(changes.skip(cut) =~= Seq::empty());
        }
    } else {
        assert(since(changes, first) =~= changes.skip(cut));
    }
}

/// Nothing that is remembered is of `first` or later.
spec fn is_early(
    base: Seq<StateChangeView>,
    space: SpaceView,
    changes: Seq<StateChangeView>,
    first: u64,
) -> bool {
    &&& is_well_keyed(space.state)
    &&& space.cache == newest(base + changes)
    &&& are_before(changes, first)
}

/// Putting `changed` back, and then undoing the changes after the first `cut`, leads back to
/// `target`, except for the pools in `created`.
spec fn leads_back(
    base: Seq<StateChangeView>,
    target: Map<Address, AmmView>,
    space: SpaceView,
    changed: Seq<AmmView>,
    changes: Seq<StateChangeView>,
    cut: int,
    first: u64,
    created: Set<Address>,
) -> bool {
    &&& is_well_keyed(space.state)
    &&& space.cache == newest(base + changes)
    &&& parts_at(changes, cut, first)
    &&& forall|pool: Address|
        !created.contains(pool) ==> #[trigger] held_after(
            space.state,
            changed + undone(changes.skip(cut), first),
            pool,
        ) == held_at(target, pool)
}

proof fn lemma_early_leads_back(
    base: Seq<StateChangeView>,
    space: SpaceView,
    changes: Seq<StateChangeView>,
    first: u64,
    created: Set<Address>,
)
    requires
        is_early(base, space, changes, first),
    ensures
        leads_back(
            base,
            space.state,
            space,
            Seq::empty(),
            changes,
            changes.len() as int,
            first,
            created,
        ),
{
    let cut = changes.len() as int;
    assert(changes.take(cut) =~= changes);
    assert(changes.skip(cut) =~= Seq::empty());
    assert(Seq::<AmmView>::empty() + undone(changes.skip(cut), first) =~= Seq::empty());
}

/// Only the pool of the log and a created one can change while a step is carried out.
proof fn lemma_settled_elsewhere(
    space: SpaceView,
    run: RunView,
    step: Step,
    log: LogView,
    reply: Reply,
    pool: Address,
)
    requires
        is_sound(log, reply),
        step matches Step::SyncPool(a) ==> a == log.address,
        step matches Step::ResetPool(reset) ==> reset.address == log.address,
        is_well_keyed(space.state),
    ensures
        ({
            let (after, next) = settled(space, run, step, reply);
            &&& is_well_keyed(after.state)
            &&& after.cache == space.cache
            &&& next.changed == run.changed
            &&& next.block_number == run.block_number
            &&& next.protected == run.protected
            &&& ({
                &&& pool != log.address || step is CreatePool || step is Settled
                &&& !(reply.created is Some && (reply.created->0).0 == pool)
            } ==> held_at(after.state, pool) == held_at(space.state, pool))
        }),
{
}

/// Remembering the changes of an earlier block.
proof fn lemma_early_turn(
    base: Seq<StateChangeView>,
    space: SpaceView,
    run: RunView,
    changes: Seq<StateChangeView>,
    first: u64,
)
    requires
        is_early(base, space, changes, first),
        run.block_number < first,
    ensures
        is_early(
            base,
            space.remembered(run.changed, run.block_number),
            changes.push(
                StateChangeView { state_change: run.changed, block_number: run.block_number },
            ),
            first,
        ),
{
    let change = StateChangeView { state_change: run.changed, block_number: run.block_number };
    lemma_newest_push(base + changes, change);
    assert((base + changes).push(change) =~= base + changes.push(change));
}

/// Remembering the changes of a block keeps the way back.
proof fn lemma_late_turn(
    base: Seq<StateChangeView>,
    target: Map<Address, AmmView>,
    space: SpaceView,
    run: RunView,
    changes: Seq<StateChangeView>,
    cut: int,
    first: u64,
    created: Set<Address>,
)
    requires
        leads_back(base, target, space, run.changed, changes, cut, first, created),
        run.block_number >= first,
    ensures
        leads_back(
            base,
            target,
            space.remembered(run.changed, run.block_number),
            Seq::empty(),
            changes.push(
                StateChangeView { state_change: run.changed, block_number: run.block_number },
            ),
            cut,
            first,
            created,
        ),
{
    let change = StateChangeView { state_change: run.changed, block_number: run.block_number };
    let more = changes.push(change);
    lemma_newest_push(base + changes, change);
    assert((base + changes).push(change) =~= base + more);
    assert(more.take(cut) =~= changes.take(cut));
    assert(more.skip(cut) =~= changes.skip(cut).push(change));
    assert(more.skip(cut).drop_last() =~= changes.skip(cut));
    assert(undone(more.skip(cut), first) == run.changed + undone(changes.skip(cut), first));
    assert(Seq::<AmmView>::empty() + undone(more.skip(cut), first) =~= undone(
        more.skip(cut),
        first,
    ));
}

/// Noting a pool before its first change in a block keeps the way back, and from then on the way
/// back does not depend on what is held under its address.
proof fn lemma_noting_leads_back(
    base: Seq<StateChangeView>,
    target: Map<Address, AmmView>,
    space: SpaceView,
    changed: Seq<AmmView>,
    changes: Seq<StateChangeView>,
    cut: int,
    first: u64,
    created: Set<Address>,
    pool: Address,
)
    requires
        leads_back(base, target, space, changed, changes, cut, first, created),
        space.state.contains_key(pool),
    ensures
        ({
            let noting = noted(changed, space.state[pool]);
            &&& leads_back(base, target, space, noting, changes, cut, first, created)
            &&& last_at(noting + undone(changes.skip(cut), first), pool) is Some
        }),
{
    let amm = space.state[pool];
    let later = undone(changes.skip(cut), first);
    let noting = noted(changed, amm);
    lemma_last_at_addresses(changed, pool);
    lemma_last_at_concat(changed, later, pool);
    lemma_last_at_concat(noting, later, pool);
    assert(noting != changed ==> noting.drop_last() =~= changed);
    assert forall|a: Address| !created.contains(a) implies #[trigger] held_after(
        space.state,
        noting + later,
        a,
    ) == held_at(target, a) by {
        assert(held_after(space.state, changed + later, a) == held_at(target, a));
        lemma_last_at_concat(changed, later, a);
        lemma_last_at_concat(noting, later, a);
    }
}

/// The changes that have been remembered once a log is taken up.
spec fn changes_with(
    changes: Seq<StateChangeView>,
    run: RunView,
    log: LogView,
) -> Seq<StateChangeView> {
    if run.turns_at(log) {
        changes.push(
            StateChangeView { state_change: run.changed, block_number: run.block_number },
        )
    } else {
        changes
    }
}

/// A log of an earlier block.
proof fn lemma_early_log(
    base: Seq<StateChangeView>,
    space: SpaceView,
    run: RunView,
    changes: Seq<StateChangeView>,
    first: u64,
    log: LogView,
    factories: Seq<FactoryView>,
    reply: Reply,
)
    requires
        is_early(base, space, changes, first),
        run.block_number < first,
        is_sound(log, reply),
        run.protected || (log.block_number is Some && log.block_number->0 < first),
    ensures
        ({
            let (after, next) = applied(space, run, log, factories, reply);
            &&& next.protected == run.protected
            &&& next.block_number < first
            &&& is_early(base, after, changes_with(changes, run, log), first)
        }),
{
    if run.turns_at(log) {
        lemma_early_turn(base, space, run, changes, first);
    }
    let (taken, taken_run, step) = taken_up(space, run, log, factories);
    lemma_settled_elsewhere(taken, taken_run, step, log, reply, log.address);
}

/// A log of the block to be undone, or of a later one, keeps the way back.
proof fn lemma_late_log(
    base: Seq<StateChangeView>,
    target: Map<Address, AmmView>,
    space: SpaceView,
    run: RunView,
    changes: Seq<StateChangeView>,
    cut: int,
    first: u64,
    created: Set<Address>,
    log: LogView,
    factories: Seq<FactoryView>,
    reply: Reply,
)
    requires
        leads_back(base, target, space, run.changed, changes, cut, first, created),
        run.block_number >= first,
        is_sound(log, reply),
        reply.created is Some ==> created.contains((reply.created->0).0),
        run.protected || (log.block_number is Some && log.block_number->0 >= first),
    ensures
        ({
            let (after, next) = applied(space, run, log, factories, reply);
            &&& next.protected == run.protected
            &&& next.block_number >= first
            &&& leads_back(
                base,
                target,
                after,
                next.changed,
                changes_with(changes, run, log),
                cut,
                first,
                created,
            )
        }),
{
    let step_run = RunView { position: run.position + 1, ..run };
    let (turned, turned_run) = if run.turns_at(log) {
        lemma_late_turn(base, target, space, run, changes, cut, first, created);
        (
            space.remembered(run.changed, run.block_number),
            RunView { block_number: log.block_number->0, ..step_run.closed() },
        )
    } else {
        (space, step_run)
    };
    let more = changes_with(changes, run, log);
    let later = undone(more.skip(cut), first);
    let changed = turned_run.changed;
    assert(leads_back(base, target, turned, changed, more, cut, first, created));
    if turned.state.contains_key(log.address) {
        lemma_noting_leads_back(
            base,
            target,
            turned,
            changed,
            more,
            cut,
            first,
            created,
            log.address,
        );
    }
    let (taken, taken_run, step) = taken_up(space, run, log, factories);
    let story = taken_run.changed + later;
    let (after, next) = settled(taken, taken_run, step, reply);
    lemma_settled_elsewhere(taken, taken_run, step, log, reply, log.address);
    assert forall|pool: Address| !created.contains(pool) implies #[trigger] held_after(
        after.state,
        next.changed + later,
        pool,
    ) == held_at(target, pool) by {
        lemma_settled_elsewhere(taken, taken_run, step, log, reply, pool);
        assert(held_after(turned.state, story, pool) == held_at(target, pool));
        if last_at(story, pool) is None {
            assert(held_at(taken.state, pool) == held_at(turned.state, pool));
        }
    }
}

/// The first log of the block to be undone, or of a later one: there is a way back to the state
/// before it.
proof fn lemma_crossing_log(
    base: Seq<StateChangeView>,
    space: SpaceView,
    run: RunView,
    changes: Seq<StateChangeView>,
    first: u64,
    created: Set<Address>,
    log: LogView,
    factories: Seq<FactoryView>,
    reply: Reply,
)
    requires
        is_early(base, space, changes, first),
        !run.protected,
        run.block_number < first,
        is_sound(log, reply),
        reply.created is Some ==> created.contains((reply.created->0).0),
        log.block_number is Some && log.block_number->0 >= first,
    ensures
        ({
            let (after, next) = applied(space, run, log, factories, reply);
            &&& next.protected == run.protected
            &&& next.block_number >= first
            &&& leads_back(
                base,
                space.state,
                after,
                next.changed,
                changes_with(changes, run, log),
                changes.len() as int + 1,
                first,
                created,
            )
        }),
{
    let turned = space.remembered(run.changed, run.block_number);
    let turned_run = RunView { block_number: log.block_number->0, ..run.closed() };
    let more = changes_with(changes, run, log);
    lemma_early_turn(base, space, run, changes, first);
    lemma_early_leads_back(base, turned, more, first, created);
    lemma_late_log(
        base,
        space.state,
        turned,
        turned_run,
        more,
        more.len() as int,
        first,
        created,
        log,
        factories,
        reply,
    );
    assert(taken_up(space, run, log, factories) == taken_up(turned, turned_run, log, factories));
}

/// The changes after one more log.
proof fn lemma_changes_with(
    older: Seq<StateChangeView>,
    start: SpaceView,
    run: RunView,
    logs: Seq<LogView>,
    factories: Seq<FactoryView>,
    replies: Seq<Reply>,
)
    requires
        logs.len() > 0,
    ensures
        ({
            let init = logs.drop_last();
            changes_with(
                older + remembered_in(start, run, init, factories, replies),
                ran(start, run, init, factories, replies).1,
                logs.last(),
            ) == older + remembered_in(start, run, logs, factories, replies)
        }),
{
    let init = logs.drop_last();
    let now = ran(start, run, init, factories, replies).1;
    let before = remembered_in(start, run, init, factories, replies);
    let change = StateChangeView { state_change: now.changed, block_number: now.block_number };
    assert((older + before).push(change) =~= older + before.push(change));
}

/// Logs of earlier blocks.
proof fn lemma_early_logs(
    base: Seq<StateChangeView>,
    start: SpaceView,
    run: RunView,
    older: Seq<StateChangeView>,
    first: u64,
    logs: Seq<LogView>,
    factories: Seq<FactoryView>,
    replies: Seq<Reply>,
)
    requires
        is_early(base, start, older, first),
        run.block_number < first,
        logs.len() <= replies.len(),
        forall|i: int|
            0 <= i < logs.len() ==> {
                &&& is_sound(#[trigger] logs[i], replies[i])
                &&& run.protected || (logs[i].block_number is Some && logs[i].block_number->0
                    < first)
            },
    ensures
        ({
            let (space, now) = ran(start, run, logs, factories, replies);
            &&& now.protected == run.protected
            &&& now.block_number < first
            &&& is_early(
                base,
                space,
                older + remembered_in(start, run, logs, factories, replies),
                first,
            )
        }),
    decreases logs.len(),
{
    if logs.len() == 0 {
        assert(older + Seq::<StateChangeView>::empty() =~= older);
    } else {
        let init = logs.drop_last();
        let at = logs.len() - 1;
        assert forall|i: int| 0 <= i < init.len() implies {
            &&& is_sound(#[trigger] init[i], replies[i])
            &&& run.protected || (init[i].block_number is Some && init[i].block_number->0 < first)
        } by {
            assert(is_sound(logs[i], replies[i]));
        }
        lemma_early_logs(base, start, run, older, first, init, factories, replies);
        let (space, now) = ran(start, run, init, factories, replies);
        let changes = older + remembered_in(start, run, init, factories, replies);
        assert(is_sound(logs[at], replies[at]));
        lemma_early_log(base, space, now, changes, first, logs[at], factories, replies[at]);
        lemma_changes_with(older, start, run, logs, factories, replies);
    }
}

/// Logs of the block to be undone and later.
proof fn lemma_late_logs(
    base: Seq<StateChangeView>,
    target: Map<Address, AmmView>,
    start: SpaceView,
    run: RunView,
    older: Seq<StateChangeView>,
    cut: int,
    first: u64,
    created: Set<Address>,
    logs: Seq<LogView>,
    factories: Seq<FactoryView>,
    replies: Seq<Reply>,
)
    requires
        leads_back(base, target, start, run.changed, older, cut, first, created),
        run.block_number >= first,
        logs.len() <= replies.len(),
        forall|i: int|
            0 <= i < logs.len() ==> {
                &&& is_sound(#[trigger] logs[i], replies[i])
                &&& replies[i].created is Some ==> created.contains((replies[i].created->0).0)
                &&& run.protected || (logs[i].block_number is Some && logs[i].block_number->0
                    >= first)
            },
    ensures
        ({
            let (space, now) = ran(start, run, logs, factories, replies);
            &&& now.protected == run.protected
            &&& now.block_number >= first
            &&& leads_back(
                base,
                target,
                space,
                now.changed,
                older + remembered_in(start, run, logs, factories, replies),
                cut,
                first,
                created,
            )
        }),
    decreases logs.len(),
{
    if logs.len() == 0 {
        assert(older + Seq::<StateChangeView>::empty() =~= older);
    } else {
        let init = logs.drop_last();
        let at = logs.len() - 1;
        assert forall|i: int| 0 <= i < init.len() implies {
            &&& is_sound(#[trigger] init[i], replies[i])
            &&& replies[i].created is Some ==> created.contains((replies[i].created->0).0)
            &&& run.protected || (init[i].block_number is Some && init[i].block_number->0 >= first)
        } by {
            assert(is_sound(logs[i], replies[i]));
        }
        lemma_late_logs(
            base,
            target,
            start,
            run,
            older,
            cut,
            first,
            created,
            init,
            factories,
            replies,
        );
        let (space, now) = ran(start, run, init, factories, replies);
        let changes = older + remembered_in(start, run, init, factories, replies);
        assert(is_sound(logs[at], replies[at]));
        lemma_late_log(
            base,
            target,
            space,
            now,
            changes,
            cut,
            first,
            created,
            logs[at],
            factories,
            replies[at],
        );
        lemma_changes_with(older, start, run, logs, factories, replies);
    }
}

/// Logs of earlier blocks, followed by logs of the block to be undone and later.
proof fn lemma_crossing_logs(
    base: Seq<StateChangeView>,
    start: SpaceView,
    run: RunView,
    older: Seq<StateChangeView>,
    first: u64,
    created: Set<Address>,
    logs: Seq<LogView>,
    count: int,
    factories: Seq<FactoryView>,
    replies: Seq<Reply>,
) -> (cut: int)
    requires
        is_early(base, start, older, first),
        !run.protected,
        run.block_number < first,
        0 <= count < logs.len() <= replies.len(),
        forall|i: int|
            0 <= i < logs.len() ==> {
                &&& is_sound(#[trigger] logs[i], replies[i])
                &&& logs[i].block_number is Some
                &&& i < count ==> logs[i].block_number->0 < first
                &&& i >= count ==> logs[i].block_number->0 >= first
                &&& i >= count && replies[i].created is Some ==> created.contains(
                    (replies[i].created->0).0,
                )
            },
    ensures
        ({
            let target = ran(start, run, logs.take(count), factories, replies).0.state;
            let (space, now) = ran(start, run, logs, factories, replies);
            &&& !now.protected
            &&& now.block_number >= first
            &&& leads_back(
                base,
                target,
                space,
                now.changed,
                older + remembered_in(start, run, logs, factories, replies),
                cut,
                first,
                created,
            )
        }),
    decreases logs.len(),
{
    let init = logs.drop_last();
    let at = logs.len() - 1;
    assert forall|i: int| 0 <= i < init.len() implies {
        &&& is_sound(#[trigger] init[i], replies[i])
        &&& init[i].block_number is Some
        &&& i < count ==> init[i].block_number->0 < first
        &&& i >= count ==> init[i].block_number->0 >= first
        &&& i >= count && replies[i].created is Some ==> created.contains(
            (replies[i].created->0).0,
        )
    } by {
        assert(is_sound(logs[i], replies[i]));
    }
    let (space, now) = ran(start, run, init, factories, replies);
    let changes = older + remembered_in(start, run, init, factories, replies);
    assert(is_sound(logs[at], replies[at]));
    lemma_changes_with(older, start, run, logs, factories, replies);
    if count == at {
        assert(logs.take(count) =~= init);
        lemma_early_logs(base, start, run, older, first, init, factories, replies);
        lemma_crossing_log(
            base,
            space,
            now,
            changes,
            first,
            created,
            logs[at],
            factories,
            replies[at],
        );
        changes.len() as int + 1
    } else {
        assert(init.take(count) =~= logs.take(count));
        let cut = lemma_crossing_logs(
            base,
            start,
            run,
            older,
            first,
            created,
            init,
            count,
            factories,
            replies,
        );
        let target = ran(start, run, logs.take(count), factories, replies).0.state;
        lemma_late_log(
            base,
            target,
            space,
            now,
            changes,
            cut,
            first,
            created,
            logs[at],
            factories,
            replies[at],
        );
        cut
    }
}

/// The end of a pass keeps the way back.
proof fn lemma_finished_leads_back(
    base: Seq<StateChangeView>,
    target: Map<Address, AmmView>,
    space: SpaceView,
    run: RunView,
    older: Seq<StateChangeView>,
    recent: Seq<StateChangeView>,
    cut: int,
    first: u64,
    created: Set<Address>,
)
    requires
        leads_back(base, target, space, run.changed, older + recent, cut, first, created),
        run.block_number >= first,
    ensures
        leads_back(
            base,
            target,
            finished(space, run),
            Seq::empty(),
            older + all_changes(recent, run),
            cut,
            first,
            created,
        ),
{
    if run.changed.len() > 0 {
        let change = StateChangeView { state_change: run.changed, block_number: run.block_number };
        lemma_late_turn(base, target, space, run, older + recent, cut, first, created);
        assert((older + recent).push(change) =~= older + recent.push(change));
    } else {
        assert(run.changed =~= Seq::empty());
    }
}

/// A pass of earlier blocks.
proof fn lemma_early_pass(
    base: Seq<StateChangeView>,
    space: SpaceView,
    pass: Pass,
    older: Seq<StateChangeView>,
    first: u64,
)
    requires
        is_early(base, space, older, first),
        pass.is_proper(),
        pass.goes_on(),
        pass.splits_at(pass.logs.len() as int, first),
    ensures
        is_early(base, pass.ended(space), older + changes_of_pass(space, pass), first),
        pass.ended(space).state == pass.reached(space, pass.logs.len() as int).0.state,
{
    let start = pass.begun(space);
    let logs = pass.logs;
    let recent = remembered_in(start, pass.run, logs, pass.factories, pass.replies);
    let (end, run) = ran(start, pass.run, logs, pass.factories, pass.replies);
    assert(logs.take(logs.len() as int) =~= logs);
    assert(is_sound(logs[0], pass.replies[0]));
    assert forall|i: int| 0 <= i < logs.len() implies {
        &&& is_sound(#[trigger] logs[i], pass.replies[i])
        &&& pass.run.protected || (logs[i].block_number is Some && logs[i].block_number->0 < first)
    } by {
        assert(is_sound(pass.logs[i], pass.replies[i]));
    }
    lemma_early_logs(
        base,
        start,
        pass.run,
        older,
        first,
        logs,
        pass.factories,
        pass.replies,
    );
    if run.changed.len() > 0 {
        let change = StateChangeView { state_change: run.changed, block_number: run.block_number };
        lemma_early_turn(base, end, run, older + recent, first);
        assert((older + recent).push(change) =~= older + recent.push(change));
    }
}

/// A pass of the block to be undone and later.
proof fn lemma_late_pass(
    base: Seq<StateChangeView>,
    target: Map<Address, AmmView>,
    space: SpaceView,
    pass: Pass,
    older: Seq<StateChangeView>,
    cut: int,
    first: u64,
    created: Set<Address>,
)
    requires
        leads_back(base, target, space, Seq::empty(), older, cut, first, created),
        pass.is_proper(),
        pass.goes_on(),
        pass.splits_at(0, first),
        forall|pool: Address| #[trigger] pass.creates(0, pool) ==> created.contains(pool),
    ensures
        leads_back(
            base,
            target,
            pass.ended(space),
            Seq::empty(),
            older + changes_of_pass(space, pass),
            cut,
            first,
            created,
        ),
{
    let start = pass.begun(space);
    let logs = pass.logs;
    let recent = remembered_in(start, pass.run, logs, pass.factories, pass.replies);
    let (end, run) = ran(start, pass.run, logs, pass.factories, pass.replies);
    assert(logs.take(logs.len() as int) =~= logs);
    assert(is_sound(logs[0], pass.replies[0]));
    assert forall|i: int| 0 <= i < logs.len() implies {
        &&& is_sound(#[trigger] logs[i], pass.replies[i])
        &&& pass.replies[i].created is Some ==> created.contains((pass.replies[i].created->0).0)
        &&& pass.run.protected || (logs[i].block_number is Some && logs[i].block_number->0
            >= first)
    } by {
        assert(is_sound(pass.logs[i], pass.replies[i]));
        if pass.replies[i].created is Some {
            assert(pass.creates(0, (pass.replies[i].created->0).0));
        }
    }
    lemma_late_logs(
        base,
        target,
        start,
        pass.run,
        older,
        cut,
        first,
        created,
        logs,
        pass.factories,
        pass.replies,
    );
    lemma_finished_leads_back(base, target, end, run, older, recent, cut, first, created);
}

/// A pass in which the blocks to be undone begin.
proof fn lemma_crossing_pass(
    base: Seq<StateChangeView>,
    space: SpaceView,
    pass: Pass,
    count: int,
    older: Seq<StateChangeView>,
    first: u64,
    created: Set<Address>,
) -> (cut: int)
    requires
        is_early(base, space, older, first),
        pass.is_proper(),
        pass.goes_on(),
        pass.splits_at(count, first),
        forall|pool: Address| #[trigger] pass.creates(count, pool) ==> created.contains(pool),
    ensures
        leads_back(
            base,
            pass.reached(space, count).0.state,
            pass.ended(space),
            Seq::empty(),
            older + changes_of_pass(space, pass),
            cut,
            first,
            created,
        ),
{
    let start = pass.begun(space);
    let logs = pass.logs;
    let recent = remembered_in(start, pass.run, logs, pass.factories, pass.replies);
    let (end, run) = ran(start, pass.run, logs, pass.factories, pass.replies);
    assert(logs.take(logs.len() as int) =~= logs);
    assert(is_sound(logs[0], pass.replies[0]));
    if count == logs.len() {
        let all = older + changes_of_pass(space, pass);
        lemma_early_pass(base, space, pass, older, first);
        lemma_early_leads_back(base, pass.ended(space), all, first, created);
        all.len() as int
    } else if count == 0 {
        assert(logs.take(0) =~= Seq::empty());
        lemma_early_leads_back(base, space, older, first, created);
        lemma_late_pass(
            base,
            space.state,
            space,
            pass,
            older,
            older.len() as int,
            first,
            created,
        );
        older.len() as int
    } else {
        assert forall|i: int| 0 <= i < logs.len() implies {
            &&& is_sound(#[trigger] logs[i], pass.replies[i])
            &&& logs[i].block_number is Some
            &&& i < count ==> logs[i].block_number->0 < first
            &&& i >= count ==> logs[i].block_number->0 >= first
            &&& i >= count && pass.replies[i].created is Some ==> created.contains(
                (pass.replies[i].created->0).0,
            )
        } by {
            assert(is_sound(pass.logs[i], pass.replies[i]));
            if i >= count && pass.replies[i].created is Some {
                assert(pass.creates(count, (pass.replies[i].created->0).0));
            }
        }
        let cut = lemma_crossing_logs(
            base,
            start,
            pass.run,
            older,
            first,
            created,
            logs,
            count,
            pass.factories,
            pass.replies,
        );
        let target = pass.reached(space, count).0.state;
        lemma_finished_leads_back(base, target, end, run, older, recent, cut, first, created);
        cut
    }
}

proof fn lemma_early_history(before: SpaceView, passes: Seq<Pass>, first: u64)
    requires
        is_well_keyed(before.state),
        before.cache.len() <= CACHE_SIZE,
        is_history(passes),
        forall|i: int|
            0 <= i < passes.len() ==> (#[trigger] passes[i]).splits_at(
                passes[i].logs.len() as int,
                first,
            ),
    ensures
        is_early(before.cache, followed(before, passes), changes_of(before, passes), first),
    decreases passes.len(),
{
    if passes.len() == 0 {
        assert(before.cache + Seq::<StateChangeView>::empty() =~= before.cache);
    } else {
        let init = passes.drop_last();
        assert forall|i: int| 0 <= i < init.len() implies {
            &&& (#[trigger] init[i]).is_proper()
            &&& init[i].goes_on()
            &&& init[i].splits_at(init[i].logs.len() as int, first)
        } by {
            assert(passes[i].is_proper());
        }
        lemma_early_history(before, init, first);
        assert(passes[passes.len() - 1].is_proper());
        lemma_early_pass(
            before.cache,
            followed(before, init),
            passes.last(),
            changes_of(before, init),
            first,
        );
    }
}

#[verifier::rlimit(40)]
proof fn lemma_history_leads_back(
    before: SpaceView,
    passes: Seq<Pass>,
    at: int,
    count: int,
    first: u64,
    created: Set<Address>,
) -> (cut: int)
    requires
        is_well_keyed(before.state),
        before.cache.len() <= CACHE_SIZE,
        is_history(passes),
        history_splits_at(passes, at, count, first),
        forall|pool: Address| #[trigger]
            created_after(passes, at, count, pool) ==> created.contains(pool),
    ensures
        leads_back(
            before.cache,
            space_at(before, passes, at, count).state,
            followed(before, passes),
            Seq::empty(),
            changes_of(before, passes),
            cut,
            first,
            created,
        ),
    decreases passes.len(),
{
    let init = passes.drop_last();
    let last = passes.last();
    let space = followed(before, init);
    let older = changes_of(before, init);
    assert(passes[passes.len() - 1].is_proper());
    assert forall|i: int| 0 <= i < init.len() implies (#[trigger] init[i]).is_proper()
        && init[i].goes_on() by {
        assert(passes[i].is_proper());
    }
    if at == passes.len() - 1 {
        assert(passes.take(at) =~= init);
        assert forall|i: int| 0 <= i < init.len() implies (#[trigger] init[i]).splits_at(
            init[i].logs.len() as int,
            first,
        ) by {
            assert(passes[i].splits_at(passes[i].logs.len() as int, first));
        }
        lemma_early_history(before, init, first);
        assert forall|pool: Address| #[trigger] last.creates(count, pool) implies created.contains(
            pool,
        ) by {
            assert(created_after(passes, at, count, pool));
        }
        lemma_crossing_pass(before.cache, space, last, count, older, first, created)
    } else {
        assert(init.take(at) =~= passes.take(at));
        assert(history_splits_at(init, at, count, first)) by {
            assert forall|i: int| 0 <= i < at implies (#[trigger] init[i]).splits_at(
                init[i].logs.len() as int,
                first,
            ) by {
                assert(passes[i].splits_at(passes[i].logs.len() as int, first));
            }
            assert forall|i: int| at < i < init.len() implies (#[trigger] init[i]).splits_at(
                0,
                first,
            ) by {
                assert(passes[i].splits_at(0, first));
            }
        }
        assert forall|pool: Address| #[trigger]
            created_after(init, at, count, pool) implies created.contains(pool) by {
            if !init[at].creates(count, pool) {
                let i = choose|i: int| at < i < init.len() && (#[trigger] init[i]).creates(0, pool);
                assert(passes[i].creates(0, pool));
            }
            assert(created_after(passes, at, count, pool));
        }
        let cut = lemma_history_leads_back(before, init, at, count, first, created);
        assert forall|pool: Address| #[trigger] last.creates(0, pool) implies created.contains(
            pool,
        ) by {
            assert(passes[passes.len() - 1].creates(0, pool));
            assert(created_after(passes, at, count, pool));
        }
        assert(passes[passes.len() - 1].splits_at(0, first));
        lemma_late_pass(
            before.cache,
            space_at(before, passes, at, count).state,
            space,
            last,
            older,
            cut,
            first,
            created,
        );
        cut
    }
}

/// Where there is a way back, unwinding takes it, as long as the cache reaches that far.
proof fn lemma_unwinding_takes_the_way_back(
    base: Seq<StateChangeView>,
    target: Map<Address, AmmView>,
    end: SpaceView,
    changes: Seq<StateChangeView>,
    cut: int,
    first: u64,
    created: Set<Address>,
)
    requires
        leads_back(base, target, end, Seq::empty(), changes, cut, first, created),
        base.len() > 0 ==> base.last().block_number < first,
        since(changes, first).len() <= CACHE_SIZE,
    ensures
        forall|pool: Address|
            !created.contains(pool) ==> #[trigger] held_at(end.unwound(first).state, pool)
                == held_at(target, pool),
{
    lemma_parts(changes, cut, first);
    let (older, newer) = (base + changes.take(cut), changes.skip(cut));
    assert(base + changes =~= older + newer);
    assert(older.len() > 0 ==> older.last().block_number < first) by {
        if cut > 0 {
            assert(older.last() == changes.take(cut)[cut - 1]);
        } else {
            assert(older =~= base);
        }
    }
    lemma_undone_of_newest(older, newer, first);
    let bare = SpaceView { cache: kept(end.cache, first), ..end };
    let former = undone(end.cache, first);
    assert(Seq::<AmmView>::empty() + undone(newer, first) =~= former);
    assert forall|pool: Address| !created.contains(pool) implies #[trigger] held_at(
        end.unwound(first).state,
        pool,
    ) == held_at(target, pool) by {
        law_restoring_puts_the_last_back(bare, former, pool);
        assert(held_after(end.state, former, pool) == held_at(target, pool));
    }
}

/// Undoing a block gives back what was held before it, however many blocks and passes came since.
///
/// Each pool is then held exactly as the logs of all earlier blocks had left it, or not held if
/// they had not, except for pools that were created since: their creation is not undone. The
/// chain must have been followed without an error, with earlier blocks before later ones, and no
/// more changes must have been made since the block than the cache has room for; and what was
/// remembered before all this must be of earlier blocks.
#[verifier::rlimit(40)]
pub proof fn law_undoing_a_block_restores_what_was_held(
    before: SpaceView,
    passes: Seq<Pass>,
    at: int,
    count: int,
    block_number: u64,
)
    requires
        is_well_keyed(before.state),
        before.cache.len() <= CACHE_SIZE,
        before.cache.len() > 0 ==> before.cache.last().block_number < block_number,
        is_history(passes),
        history_splits_at(passes, at, count, block_number),
        since(changes_of(before, passes), block_number).len() <= CACHE_SIZE,
    ensures
        forall|pool: Address|
            !created_after(passes, at, count, pool) ==> #[trigger] held_at(
                followed(before, passes).unwound(block_number).state,
                pool,
            ) == held_at(space_at(before, passes, at, count).state, pool),
{
    let created = Set::new(|pool: Address| created_after(passes, at, count, pool));
    let target = space_at(before, passes, at, count).state;
    let end = followed(before, passes);
    let changes = changes_of(before, passes);
    let cut = lemma_history_leads_back(before, passes, at, count, block_number, created);
    lemma_unwinding_takes_the_way_back(
        before.cache,
        target,
        end,
        changes,
        cut,
        block_number,
        created,
    );
    assert forall|pool: Address| !created_after(passes, at, count, pool) implies #[trigger] held_at(
        end.unwound(block_number).state,
        pool,
    ) == held_at(target, pool) by {
        assert(!created.contains(pool));
    }
}

/// A pass that goes back to a block starts from where the chain stood before that block.
///
/// If no pool has been created since, the pools and both indexes are then what the logs of all
/// earlier blocks had made them.
#[verifier::rlimit(40)]
pub proof fn law_reorganised_pass_starts_from_before(
    before: SpaceView,
    passes: Seq<Pass>,
    at: int,
    count: int,
    next: Pass,
)
    requires
        before.is_in_step(),
        is_well_keyed(before.state),
        before.cache.len() <= CACHE_SIZE,
        before.cache.len() > 0 ==> before.cache.last().block_number < next.run.block_number,
        is_history(passes),
        history_keeps_tokens(before, passes),
        history_splits_at(passes, at, count, next.run.block_number),
        since(changes_of(before, passes), next.run.block_number).len() <= CACHE_SIZE,
        forall|pool: Address| !created_after(passes, at, count, pool),
        next.latest_block >= next.run.block_number,
    ensures
        ({
            let start = next.begun(followed(before, passes));
            let then = space_at(before, passes, at, count);
            &&& start.state == then.state
            &&& start.token_to_pools == then.token_to_pools
            &&& start.token_pair_to_pools == then.token_pair_to_pools
        }),
{
    let b = next.run.block_number;
    let end = followed(before, passes);
    let dated = SpaceView { latest_block: next.latest_block, ..end };
    let start = next.begun(end);
    let then = space_at(before, passes, at, count);
    law_undoing_a_block_restores_what_was_held(before, passes, at, count, b);
    let bare = SpaceView { cache: kept(end.cache, b), ..end };
    let dated_bare = SpaceView { cache: kept(end.cache, b), ..dated };
    let former = undone(end.cache, b);
    assert forall|pool: Address| held_at(start.state, pool) == held_at(then.state, pool) by {
        law_restoring_puts_the_last_back(bare, former, pool);
        law_restoring_puts_the_last_back(dated_bare, former, pool);
        assert(!created_after(passes, at, count, pool));
        assert(held_at(end.unwound(b).state, pool) == held_at(then.state, pool));
    }
    assert(start.state =~= then.state) by {
        assert forall|pool: Address|
            start.state.contains_key(pool) <==> then.state.contains_key(pool) by {
            assert(held_at(start.state, pool) == held_at(then.state, pool));
        }
        assert forall|pool: Address| start.state.contains_key(pool) implies start.state[pool]
            == then.state[pool] by {
            assert(held_at(start.state, pool) == held_at(then.state, pool));
        }
    }
    assert(passes[at].is_proper());
    law_history_keeps_step(before, passes, at, count);
    law_reorganizing_keeps_step(dated, b);
}

/// A pass does not report the pools that it has only put back: with a single log that concerns
/// no factory and no pool it affects nothing, and leaves the space as it started.
pub proof fn law_pools_put_back_are_not_reported(space: SpaceView, next: Pass)
    requires
        next.is_proper(),
        next.logs.len() == 1,
        !next.begun(space).state.contains_key(next.logs[0].address),
        forall|i: int|
            0 <= i < next.factories.len() ==> (#[trigger] next.factories[i]).address
                != next.logs[0].address,
    ensures
        next.ended(space) == next.begun(space),
        next.reached(space, 1).1.closed().affected == Set::<Address>::empty(),
{
    let start = next.begun(space);
    let log = next.logs[0];
    assert(next.logs.take(1) =~= next.logs);
    assert(next.logs.drop_last() =~= Seq::empty());
    law_foreign_log_is_ignored(start, next.run, log, next.factories);
    let (end, run) = ran(start, next.run, next.logs, next.factories, next.replies);
    assert(ran(start, next.run, next.logs.drop_last(), next.factories, next.replies) == (
        start,
        next.run,
    ));
    assert(run.changed =~= Seq::empty());
    assert(addresses_of(run.changed) =~= Set::empty());
    assert(run.closed().affected =~= Set::<Address>::empty());
}

/// What is undone is exactly the newer changes, as long as none of them had to make room.
proof fn lemma_undone_of_newest(
    older: Seq<StateChangeView>,
    newer: Seq<StateChangeView>,
    first: u64,
)
    requires
        are_since(newer, first),
        newer.len() <= CACHE_SIZE,
        older.len() > 0 ==> older.last().block_number < first,
    ensures
        undone(newest(older + newer), first) == undone(newer, first),
{
    let both = older + newer;
    let spared = if both.len() > CACHE_SIZE {
        older.skip(both.len() - CACHE_SIZE)
    } else {
        older
    };
    assert(newest(both) =~= spared + newer);
    assert(spared.len() > 0 ==> spared.last() == older.last());
    lemma_undone_of_concat(spared, newer, first);
}

proof fn lemma_undone_of_concat(
    older: Seq<StateChangeView>,
    newer: Seq<StateChangeView>,
    first: u64,
)
    requires
        are_since(newer, first),
        older.len() > 0 ==> older.last().block_number < first,
    ensures
        undone(older + newer, first) == undone(newer, first),
    decreases newer.len(),
{
    if newer.len() > 0 {
        let init = newer.drop_last();
        assert((older + newer).drop_last() =~= older + init);
        assert(newer[newer.len() - 1].block_number >= first);
        assert forall|i: int| 0 <= i < init.len() implies #[trigger] init[i].block_number
            >= first by {
            assert(newer[i].block_number >= first);
        }
        lemma_undone_of_concat(older, init, first);
    } else {
        assert(older + newer =~= older);
    }
}

/// A pool that a pass does not report as affected is held as before, or still not held.
pub proof fn law_unaffected_pools_are_unchanged(
    before: SpaceView,
    run: RunView,
    logs: Seq<LogView>,
    factories: Seq<FactoryView>,
    replies: Seq<Reply>,
    pool: Address,
)
    requires
        is_well_keyed(before.state),
        logs.len() == replies.len(),
        forall|i: int| 0 <= i < logs.len() ==> is_sound(#[trigger] logs[i], replies[i]),
        !ran(before, run, logs, factories, replies).1.closed().affected.contains(pool),
    ensures
        held_at(finished(
            ran(before, run, logs, factories, replies).0,
            ran(before, run, logs, factories, replies).1,
        ).state, pool) == held_at(before.state, pool),
{
    lemma_unaffected(before, run, logs, factories, replies, pool);
}

proof fn lemma_unaffected(
    before: SpaceView,
    run: RunView,
    logs: Seq<LogView>,
    factories: Seq<FactoryView>,
    replies: Seq<Reply>,
    pool: Address,
)
    requires
        is_well_keyed(before.state),
        logs.len() <= replies.len(),
        forall|i: int| 0 <= i < logs.len() ==> is_sound(#[trigger] logs[i], replies[i]),
    ensures
        ({
            let (space, now) = ran(before, run, logs, factories, replies);
            &&& is_well_keyed(space.state)
            &&& !now.closed().affected.contains(pool) ==> held_at(space.state, pool) == held_at(
                before.state,
                pool,
            )
        }),
    decreases logs.len(),
{
    if logs.len() > 0 {
        let init = logs.drop_last();
        let log = logs.last();
        let reply = replies[logs.len() - 1];
        assert forall|i: int| 0 <= i < init.len() implies is_sound(
            #[trigger] init[i],
            replies[i],
        ) by {
            assert(is_sound(logs[i], replies[i]));
        }
        assert(is_sound(logs[logs.len() - 1], reply));
        lemma_unaffected(before, run, init, factories, replies, pool);
        let (space, now) = ran(before, run, init, factories, replies);
        let (taken, taken_run, step) = taken_up(space, now, log, factories);
        let (after, next) = settled(taken, taken_run, step, reply);
        lemma_settled_elsewhere(taken, taken_run, step, log, reply, pool);
        lemma_last_at_addresses(now.changed, pool);
        lemma_last_at_addresses(taken_run.changed, pool);
        lemma_last_at_addresses(Seq::empty(), pool);
        assert(Seq::<AmmView>::empty().push(space.state[pool]).drop_last() =~= Seq::empty());
        assert(now.changed.push(space.state[pool]).drop_last() =~= now.changed);
        assert(now.changed.push(space.state[log.address]).drop_last() =~= now.changed);
        assert(Seq::<AmmView>::empty().push(space.state[log.address]).drop_last()
            =~= Seq::empty());
    }
}

/// Each pool stays held under its own address, whether a pass goes on or undoes blocks.
pub proof fn law_pools_stay_under_their_addresses(
    before: SpaceView,
    run: RunView,
    logs: Seq<LogView>,
    factories: Seq<FactoryView>,
    replies: Seq<Reply>,
    block_number: u64,
)
    requires
        is_well_keyed(before.state),
        logs.len() == replies.len(),
        forall|i: int| 0 <= i < logs.len() ==> is_sound(#[trigger] logs[i], replies[i]),
    ensures
        is_well_keyed(before.reorganized(block_number).state),
        is_well_keyed(ran(before, run, logs, factories, replies).0.state),
{
    let any: Address = vstd::pervasive::arbitrary();
    lemma_unaffected(before, run, logs, factories, replies, any);
    let bare = SpaceView { cache: kept(before.cache, block_number), ..before };
    lemma_restored_well_keyed(bare, undone(before.cache, block_number));
}

proof fn lemma_restored_well_keyed(space: SpaceView, amms: Seq<AmmView>)
    requires
        is_well_keyed(space.state),
    ensures
        is_well_keyed(space.restored(amms).state),
    decreases amms.len(),
{
    if amms.len() > 0 {
        lemma_restored_well_keyed(space, amms.drop_last());
    }
}

} // verus!
