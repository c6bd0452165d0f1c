//! A whole pass over a batch of logs, in ghost code: what the steps of a pass amount to once
//! everything that they ask for has been answered.
use crate::amm::AmmView;
use crate::factory::FactoryView;
use crate::primitives::Address;
use crate::space::SpaceView;
use crate::sync::{synced, taken_up, LogView, RunView, Step, SyncOutcome};
use vstd::prelude::*;

verus! {

/// All that comes back from outside while a log is applied. Only what the log asks for is looked
/// at.
pub struct Reply {
    /// The pool that the log announces, once it has been initialised, with the address that it was
    /// built with.
    pub created: Option<(Address, AmmView)>,
    /// The pool as the log left it.
    pub amm: AmmView,
    /// What came of applying the log to the pool.
    pub outcome: SyncOutcome,
    /// The pool read anew.
    pub fresh: Option<AmmView>,
}

/// The space and the pass after a broken pool was to be read anew.
pub open spec fn mended(
    space: SpaceView,
    run: RunView,
    pool: Address,
    fresh: Option<AmmView>,
) -> (SpaceView, RunView) {
    match fresh {
        Some(amm) => (
            space.replaced(pool, amm),
            RunView { affected: run.affected.insert(pool), ..run },
        ),
        None => (space.dropped(pool), run),
    }
}

/// The space and the pass after a new pool has been initialised.
pub open spec fn joined(space: SpaceView, run: RunView, address: Address, amm: AmmView) -> (
    SpaceView,
    RunView,
) {
    (
        space.held(address, amm).indexed(address, amm),
        RunView { affected: run.affected.insert(address), ..run },
    )
}

/// The space and the pass after `step` has been carried out.
pub open spec fn settled(space: SpaceView, run: RunView, step: Step, reply: Reply) -> (
    SpaceView,
    RunView,
) {
    match step {
        Step::Settled => (space, run),
        Step::CreatePool(_) => match reply.created {
            Some((address, amm)) => joined(space, run, address, amm),
            None => (space, run),
        },
        Step::SyncPool(pool) => {
            let (space, next) = synced(space, run.reset_block, pool, reply.amm, reply.outcome);
            match next {
                Ok(Step::ResetPool(reset)) => mended(space, run, reset.address, reply.fresh),
                _ => (space, run),
            }
        },
        Step::ResetPool(reset) => mended(space, run, reset.address, reply.fresh),
    }
}

/// The space and the pass after a log has been applied.
pub open spec fn applied(
    space: SpaceView,
    run: RunView,
    log: LogView,
    factories: Seq<FactoryView>,
    reply: Reply,
) -> (SpaceView, RunView) {
    let (space, run, step) = taken_up(space, run, log, factories);
    settled(space, run, step, reply)
}

/// The space and the pass after all of `logs` have been applied, one after the other.
pub open spec fn ran(
    space: SpaceView,
    run: RunView,
    logs: Seq<LogView>,
    factories: Seq<FactoryView>,
    replies: Seq<Reply>,
) -> (SpaceView, RunView)
    decreases logs.len(),
{
    if logs.len() == 0 {
        (space, run)
    } else {
        let (space, run) = ran(space, run, logs.drop_last(), factories, replies);
        applied(space, run, logs.last(), factories, replies[logs.len() - 1])
    }
}

/// The space once a pass has ended.
pub open spec fn finished(space: SpaceView, run: RunView) -> SpaceView {
    if run.changed.len() > 0 {
        space.remembered(run.changed, run.block_number)
    } else {
        space
    }
}

/// A reply in which every pool has the address under which it is to be held, and which does not
/// end the pass.
pub open spec fn is_sound(log: LogView, reply: Reply) -> bool {
    &&& reply.created matches Some((address, amm)) ==> amm.address == address
    &&& reply.amm.address == log.address
    &&& reply.fresh matches Some(amm) ==> amm.address == log.address
    &&& !(reply.outcome is Failed)
}

/// Each pool is held under its own address.
pub open spec fn is_well_keyed(state: Map<Address, AmmView>) -> bool {
    forall|pool: Address| #[trigger] state.contains_key(pool) ==> state[pool].address == pool
}

/// One pass of those that follow a chain, with all that came back from outside.
pub struct Pass {
    /// The latest block of the space, as whoever follows the chain has set it before the pass.
    pub latest_block: u64,
    /// The pass when it starts.
    pub run: RunView,
    pub logs: Seq<LogView>,
    pub factories: Seq<FactoryView>,
    pub replies: Seq<Reply>,
}

impl Pass {
    /// The space when the pass starts.
    pub open spec fn begun(self, space: SpaceView) -> SpaceView {
        SpaceView { latest_block: self.latest_block, ..space }.reorganized(self.run.block_number)
    }

    /// The space and the pass after the first `count` logs.
    pub open spec fn reached(self, space: SpaceView, count: int) -> (SpaceView, RunView) {
        ran(self.begun(space), self.run, self.logs.take(count), self.factories, self.replies)
    }

    /// The space after the pass.
    pub open spec fn ended(self, space: SpaceView) -> SpaceView {
        let (space, run) = self.reached(space, self.logs.len() as int);
        finished(space, run)
    }

    /// The pass starts as it should, every log has a reply, and no error ends it.
    pub open spec fn is_proper(self) -> bool {
        &&& self.run == RunView::started(
            self.run.protected,
            self.run.block_number,
            self.run.reset_block,
        )
        &&& self.logs.len() > 0
        &&& self.logs[0].block_number == Some(self.run.block_number)
        &&& self.logs.len() == self.replies.len()
        &&& forall|i: int|
            0 <= i < self.logs.len() ==> {
                &&& is_sound(#[trigger] self.logs[i], self.replies[i])
                &&& self.run.protected || self.logs[i].block_number is Some
            }
    }

    /// The pass starts beyond the latest block.
    pub open spec fn goes_on(self) -> bool {
        self.latest_block < self.run.block_number
    }

    /// The first `count` logs are of blocks before `block_number`, and the others are not. A
    /// protected pass takes all of its logs for those of its block.
    pub open spec fn splits_at(self, count: int, block_number: u64) -> bool {
        if self.run.protected {
            count == (if self.run.block_number < block_number {
                self.logs.len() as int
            } else {
                0
            })
        } else {
            &&& 0 <= count <= self.logs.len()
            &&& forall|i: int|
                0 <= i < self.logs.len() ==> (i < count <==> (
                #[trigger] self.logs[i]).block_number->0 < block_number)
        }
    }

    /// A log from position `from` on creates a pool at this address.
    pub open spec fn creates(self, from: int, pool: Address) -> bool {
        exists|i: int|
            from <= i < self.replies.len() && #[trigger] self.replies[i].created is Some && (
            self.replies[i].created->0).0 == pool
    }
}

/// The space after all of `passes`, one after the other.
pub open spec fn followed(space: SpaceView, passes: Seq<Pass>) -> SpaceView
    decreases passes.len(),
{
    if passes.len() == 0 {
        space
    } else {
        passes.last().ended(followed(space, passes.drop_last()))
    }
}

/// A chain that was followed without being reorganised.
pub open spec fn is_history(passes: Seq<Pass>) -> bool {
    forall|i: int|
        0 <= i < passes.len() ==> (#[trigger] passes[i]).is_proper() && passes[i].goes_on()
}

/// All passes before `at` are of blocks before `block_number`, as are the first `count` logs of
/// the pass at `at`; everything else is not.
pub open spec fn history_splits_at(
    passes: Seq<Pass>,
    at: int,
    count: int,
    block_number: u64,
) -> bool {
    &&& 0 <= at < passes.len()
    &&& passes[at].splits_at(count, block_number)
    &&& forall|i: int|
        0 <= i < at ==> (#[trigger] passes[i]).splits_at(
            passes[i].logs.len() as int,
            block_number,
        )
    &&& forall|i: int| at < i < passes.len() ==> (#[trigger] passes[i]).splits_at(0, block_number)
}

/// A log after the first `count` of the pass at `at`, or of a later pass, creates a pool at this
/// address.
pub open spec fn created_after(passes: Seq<Pass>, at: int, count: int, pool: Address) -> bool {
    ||| passes[at].creates(count, pool)
    ||| exists|i: int| at < i < passes.len() && (#[trigger] passes[i]).creates(0, pool)
}

/// The space when the first `count` logs of the pass at `at` had been applied.
pub open spec fn space_at(before: SpaceView, passes: Seq<Pass>, at: int, count: int) -> SpaceView {
    passes[at].reached(followed(before, passes.take(at)), count).0
}

} // verus!
