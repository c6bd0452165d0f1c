//! Following the chain: how a batch of logs changes the state space.
//!
//! What a log asks for beyond the state itself (building a pool, reading it from the chain,
//! waiting) is named in a [`Step`] or an [`InitRequest`]; whoever runs the pass does it and
//! reports what came of it.
use crate::amm::{amm_views, AmmView, Pool, PoolView, Variant, AMM};
use crate::cache::{cached, kept, undone, StateChange, StateChangeView};
use crate::error::{AMMError, StateSpaceError, UniswapV3Error};
use crate::factory::{Factory, FactoryView};
use crate::key_set::{lemma_push_to_set, KeySet};
use crate::pass::{finished, joined, mended};
use crate::primitives::{Address, B256};
use crate::space::{lemma_views_of_state, SpaceView, StateSpace, CACHE_SIZE};
use crate::text::{contains, contains_text};
use vstd::prelude::*;

verus! {

/// How often the initialisation of a new pool is tried again.
pub const MAX_RETRIES: u32 = 3;

/// How long to wait before each further try, in seconds.
pub const RETRY_DELAY_SECS: u64 = 1;

/// An event that a contract emitted.
#[derive(Debug)]
pub struct Log {
    pub address: Address,
    pub topics: Vec<B256>,
    pub block_number: Option<u64>,
}

/// What a [`Log`] stands for.
pub struct LogView {
    pub address: Address,
    pub topics: Seq<B256>,
    pub block_number: Option<u64>,
}

impl View for Log {
    type V = LogView;

    open spec fn view(&self) -> LogView {
        LogView {
            address: self.address,
            topics: self.topics@,
            block_number: self.block_number,
        }
    }
}

/// One pass over a batch of logs.
#[derive(Debug)]
pub struct SyncRun {
    /// Whether a pool that breaks is read anew from the chain, instead of ending the pass. Such a
    /// pass takes its whole batch for a single block.
    pub protected: bool,
    /// The block of the logs that are being applied.
    pub block_number: u64,
    /// The block at which a broken pool is read anew.
    pub reset_block: u64,
    /// How many logs have been taken up.
    pub position: usize,
    /// The pools that changed in this block, each as it was before its first change.
    pub changed: Vec<AMM>,
    /// The pools that the pass has affected, except those in `changed`.
    pub affected: KeySet<Address>,
}

/// What a [`SyncRun`] stands for.
#[verifier::ext_equal]
pub struct RunView {
    pub protected: bool,
    pub block_number: u64,
    pub reset_block: u64,
    pub position: nat,
    pub changed: Seq<AmmView>,
    pub affected: Set<Address>,
}

impl View for SyncRun {
    type V = RunView;

    open spec fn view(&self) -> RunView {
        RunView {
            protected: self.protected,
            block_number: self.block_number,
            reset_block: self.reset_block,
            position: self.position as nat,
            changed: amm_views(self.changed@),
            affected: self.affected@,
        }
    }
}

/// A pool to be made anew from its factory and read from the chain.
#[derive(Clone, Copy, Debug, PartialEq, Eq)]
pub struct PoolReset {
    pub address: Address,
    pub factory_address: Address,
    pub variant: Variant,
    /// The block at which to read it.
    pub block_number: u64,
}

/// What a log asks for.
#[derive(Clone, Copy, Debug, PartialEq, Eq)]
pub enum Step {
    /// Nothing more.
    Settled,
    /// Let the factory at this position build the pool that the log announces.
    CreatePool(usize),
    /// Apply the log to the pool held under this address.
    SyncPool(Address),
    /// Read this pool anew.
    ResetPool(PoolReset),
}

/// A new pool to be read from the chain.
#[derive(Clone, Copy, Debug, PartialEq, Eq)]
pub struct InitRequest {
    pub address: Address,
    /// The block at which to read it.
    pub block_number: u64,
    /// How often it has been tried already.
    pub retries: u32,
    /// How long to wait first.
    pub delay_secs: u64,
}

/// What comes after an attempt to initialise a pool.
#[derive(Clone, Copy, Debug, PartialEq, Eq)]
pub enum InitStep {
    Initialized,
    Retry(InitRequest),
    GivenUp,
}

/// What came of applying a log to a pool.
#[derive(Debug)]
pub enum SyncOutcome {
    Synced,
    Failed(AMMError),
    /// It panicked with this message.
    Panicked(String),
}

/// The addresses of several pools.
pub open spec fn addresses_of(amms: Seq<AmmView>) -> Set<Address> {
    amms.map_values(|amm: AmmView| amm.address).to_set()
}

/// `amms` with `amm` as well, unless a pool of the same address is there already.
pub open spec fn noted(amms: Seq<AmmView>, amm: AmmView) -> Seq<AmmView> {
    if addresses_of(amms).contains(amm.address) {
        amms
    } else {
        amms.push(amm)
    }
}

/// `factory` announces a new pool with `log`.
pub open spec fn announces(factory: FactoryView, log: LogView) -> bool {
    factory.address == log.address && factory.discovery_event == log.topics[0]
}

/// The first factory that announces a new pool with `log`.
pub open spec fn is_creation(factories: Seq<FactoryView>, log: LogView, at: int) -> bool {
    &&& 0 <= at < factories.len()
    &&& announces(factories[at], log)
    &&& forall|i: int| 0 <= i < at ==> !announces(#[trigger] factories[i], log)
}

/// No factory announces a new pool with `log`.
pub open spec fn is_no_creation(factories: Seq<FactoryView>, log: LogView) -> bool {
    forall|i: int| 0 <= i < factories.len() ==> !announces(#[trigger] factories[i], log)
}

/// The views of several factories.
pub open spec fn factory_views(factories: Seq<Factory>) -> Seq<FactoryView> {
    factories.map_values(|factory: Factory| factory@)
}

/// The message of a panic that an underflow of a pool's liquidity causes.
pub open spec fn is_underflow(message: Seq<char>) -> bool {
    contains_text(message, "attempt to subtract with overflow"@) || contains_text(
        message,
        "LiquidityUnderflow"@,
    )
}

/// The error for a pool that cannot be read anew.
pub open spec fn liquidity_underflow() -> StateSpaceError {
    StateSpaceError::AMMError(AMMError::UniswapV3Error(UniswapV3Error::LiquidityUnderflow))
}

impl SpaceView {
    /// Former pools put back, one after the other.
    pub open spec fn restored(self, amms: Seq<AmmView>) -> SpaceView
        decreases amms.len(),
    {
        if amms.len() == 0 {
            self
        } else {
            self.restored(amms.drop_last()).replaced(amms.last().address, amms.last())
        }
    }

    /// Everything from `block_number` on undone, as far as the cache reaches.
    pub open spec fn unwound(self, block_number: u64) -> SpaceView {
        SpaceView { cache: kept(self.cache, block_number), ..self }.restored(
            undone(self.cache, block_number),
        )
    }

    /// The space ready for the logs of `block_number`: if that block is not beyond the latest
    /// one, the chain was reorganised and what came from it is undone.
    pub open spec fn reorganized(self, block_number: u64) -> SpaceView {
        if self.latest_block >= block_number {
            self.unwound(block_number)
        } else {
            self
        }
    }

    /// The change of a block remembered.
    pub open spec fn remembered(self, changed: Seq<AmmView>, block_number: u64) -> SpaceView {
        SpaceView {
            cache: cached(
                self.cache,
                StateChangeView { state_change: changed, block_number },
                CACHE_SIZE as nat,
            ),
            ..self
        }
    }

    /// How `pool` can be made anew as of `block_number`: it has to be held, and to be a
    /// concentrated liquidity pool.
    pub open spec fn reset_of(self, pool: Address, block_number: u64) -> Option<PoolReset> {
        if !self.state.contains_key(pool) {
            None
        } else {
            match self.state[pool].pool {
                PoolView::UniswapV3Pool(v3) => Some(
                    PoolReset {
                        address: pool,
                        factory_address: v3.factory_address,
                        variant: Variant::UniswapV3,
                        block_number,
                    },
                ),
                PoolView::UniswapV3VariantPool(v3) => Some(
                    PoolReset {
                        address: pool,
                        factory_address: v3.factory_address,
                        variant: Variant::UniswapV3Variant,
                        block_number,
                    },
                ),
                _ => None,
            }
        }
    }

    /// A broken pool: it is to be read anew as of `block_number`, or else it is dropped.
    pub open spec fn broken(self, pool: Address, block_number: u64) -> (SpaceView, Step) {
        match self.reset_of(pool, block_number) {
            Some(reset) => (self, Step::ResetPool(reset)),
            None => (self.dropped(pool), Step::Settled),
        }
    }
}

impl RunView {
    /// A pass that starts at `block_number`.
    pub open spec fn started(protected: bool, block_number: u64, reset_block: u64) -> RunView {
        RunView {
            protected,
            block_number,
            reset_block,
            position: 0,
            changed: Seq::empty(),
            affected: Set::empty(),
        }
    }

    /// The pools of `changed` counted among the affected ones.
    pub open spec fn closed(self) -> RunView {
        RunView {
            changed: Seq::empty(),
            affected: self.affected.union(addresses_of(self.changed)),
            ..self
        }
    }

    /// Whether `log` belongs to another block than the logs before it.
    pub open spec fn turns_at(self, log: LogView) -> bool {
        !self.protected && log.block_number != Some(self.block_number)
    }
}

/// The space and the pass once `log` has been taken up, and what it asks for.
pub open spec fn taken_up(
    space: SpaceView,
    run: RunView,
    log: LogView,
    factories: Seq<FactoryView>,
) -> (SpaceView, RunView, Step) {
    let next = RunView { position: run.position + 1, ..run };
    // At the first log of another block the changes of the block before are remembered.
    let (space, next) = if run.turns_at(log) {
        (
            space.remembered(run.changed, run.block_number),
            RunView { block_number: log.block_number->0, ..next.closed() },
        )
    } else {
        (space, next)
    };
    if !is_no_creation(factories, log) {
        let at = choose|at: int| is_creation(factories, log, at);
        (space, next, Step::CreatePool(at as usize))
    } else if space.state.contains_key(log.address) {
        let amm = space.state[log.address];
        let noting = RunView { changed: noted(next.changed, amm), ..next };
        if run.protected && amm.has_lost_ticks() {
            let (space, step) = space.broken(log.address, run.reset_block);
            (space, noting, step)
        } else {
            (space, noting, Step::SyncPool(log.address))
        }
    } else {
        (space, next, Step::Settled)
    }
}

/// The space once a log has been applied to `pool`, which left it as `amm`, and what is to be
/// done next, or the error that ends the pass. A broken pool is read anew as of `reset_block`.
pub open spec fn synced(
    space: SpaceView,
    reset_block: u64,
    pool: Address,
    amm: AmmView,
    outcome: SyncOutcome,
) -> (SpaceView, Result<Step, StateSpaceError>) {
    if !space.state.contains_key(pool) {
        (space, Err(liquidity_underflow()))
    } else {
        match outcome {
            SyncOutcome::Synced => (space.replaced(pool, amm), Ok(Step::Settled)),
            SyncOutcome::Failed(error) => (
                space.held(pool, amm),
                Err(StateSpaceError::AMMError(error)),
            ),
            SyncOutcome::Panicked(message) => if is_underflow(message@) {
                let (space, step) = space.held(pool, amm).broken(pool, reset_block);
                (space, Ok(step))
            } else {
                (space.held(pool, amm).dropped(pool), Ok(Step::Settled))
            },
        }
    }
}

/// What comes after a failed attempt to initialise a pool: another one, a few times.
pub open spec fn after_failure(request: InitRequest) -> InitStep {
    if request.retries < MAX_RETRIES {
        InitStep::Retry(
            InitRequest {
                retries: (request.retries + 1) as u32,
                delay_secs: RETRY_DELAY_SECS,
                ..request
            },
        )
    } else {
        InitStep::GivenUp
    }
}

/// What comes after `count` attempts that all failed.
pub open spec fn after_failures(request: InitRequest, count: nat) -> InitStep
    decreases count,
{
    if count == 0 {
        InitStep::Retry(request)
    } else {
        match after_failures(request, (count - 1) as nat) {
            InitStep::Retry(next) => after_failure(next),
            other => other,
        }
    }
}

/// A pool that cannot be initialised is tried again three times, at the same block and after the
/// same delay, and then given up.
pub proof fn law_retries_are_bounded(request: InitRequest, count: nat)
    requires
        request.retries == 0,
    ensures
        count > MAX_RETRIES ==> after_failures(request, count) == InitStep::GivenUp,
        0 < count <= MAX_RETRIES ==> after_failures(request, count) == InitStep::Retry(
            InitRequest { retries: count as u32, delay_secs: RETRY_DELAY_SECS, ..request },
        ),
    decreases count,
{
    if count > 0 {
        law_retries_are_bounded(request, (count - 1) as nat);
    }
}

impl SyncRun {
    /// The affected pools are stored in order.
    pub open spec fn wf(&self) -> bool {
        self.affected.wf()
    }

    /// What to do with the pool that a factory has built: it is read from the chain at the block
    /// of the pass. A factory that failed to build one is passed over.
    pub fn pool_created(&self, created: &Result<AMM, AMMError>) -> (request: Option<InitRequest>)
        ensures
            request == (match *created {
                Ok(amm) => Some(
                    InitRequest {
                        address: amm@.address,
                        block_number: self@.block_number,
                        retries: 0,
                        delay_secs: 0,
                    },
                ),
                Err(_) => None,
            }),
    {
        match created {
            Ok(amm) => Some(
                InitRequest {
                    address: amm.address(),
                    block_number: self.block_number,
                    retries: 0,
                    delay_secs: 0,
                },
            ),
            Err(_) => None,
        }
    }

    fn start(protected: bool, block_number: u64, reset_block: u64) -> (run: SyncRun)
        ensures
            run.wf(),
            run@ == RunView::started(protected, block_number, reset_block),
    {
        let run = SyncRun {
            protected,
            block_number,
            reset_block,
            position: 0,
            changed: Vec::new(),
            affected: KeySet::new(),
        };
        assert(run@.changed =~= Seq::empty());
        run
    }

    /// Adds a pool as it was before its first change.
    fn note(&mut self, amm: AMM)
        requires
            old(self).wf(),
        ensures
            final(self).wf(),
            final(self)@ == (RunView { changed: noted(old(self)@.changed, amm@), ..old(self)@ }),
    {
        let ghost views = amm_views(self.changed@);
        let ghost addresses = views.map_values(|a: AmmView| a.address);
        let mut i: usize = 0;
        while i < self.changed.len()
            invariant
                *self == *old(self),
                self.wf(),
                i <= self.changed@.len(),
                views == amm_views(self.changed@),
                addresses == views.map_values(|a: AmmView| a.address),
                forall|j: int| 0 <= j < i ==> #[trigger] addresses[j] != amm@.address,
            decreases self.changed@.len() - i,
        {
            let address = self.changed[i].address();
            assert(addresses[i as int] == address);
            if address.same_as(&amm.address) {
                assert(addresses_of(views).contains(amm@.address));
                return;
            }
            i = i + 1;
        }
        assert(!addresses_of(views).contains(amm@.address));
        self.changed.push(amm);
        assert(self@.changed =~= views.push(amm@));
    }

    /// Counts the pools of `changed` among the affected ones and hands them out.
    fn close(&mut self) -> (changed: Vec<AMM>)
        requires
            old(self).wf(),
        ensures
            final(self).wf(),
            final(self)@ == old(self)@.closed(),
            amm_views(changed@) == old(self)@.changed,
    {
        let mut changed: Vec<AMM> = Vec::new();
        std::mem::swap(&mut changed, &mut self.changed);
        assert(self@.changed =~= Seq::empty());
        let ghost addresses = amm_views(changed@).map_values(|a: AmmView| a.address);
        let ghost before = self.affected@;
        let ghost bare = self@;
        let mut i: usize = 0;
        assert(before.union(addresses.take(0).to_set()) =~= before);
        while i < changed.len()
            invariant
                self.wf(),
                i <= changed@.len(),
                addresses == amm_views(changed@).map_values(|a: AmmView| a.address),
                self@ == (RunView {
                    affected: before.union(addresses.take(i as int).to_set()),
                    ..bare
                }),
            decreases changed@.len() - i,
        {
            let address = changed[i].address();
            assert(addresses[i as int] == address);
            self.affected.insert(address);
            proof {
                assert(addresses.take(i + 1) =~= addresses.take(i as int).push(address));
                lemma_push_to_set(addresses.take(i as int), address);
                assert(self@.affected =~= before.union(addresses.take(i + 1).to_set()));
            }
            i = i + 1;
        }
        assert(addresses.take(i as int) =~= addresses);
        changed
    }
}

impl StateSpace {
    /// Puts `amm` in place of what is held under `pool`, in the state and in the indexes.
    fn replace_pool(&mut self, pool: Address, amm: AMM)
        requires
            old(self).wf(),
        ensures
            final(self).wf(),
            final(self)@ == old(self)@.replaced(pool, amm@),
            final(self).cache == old(self).cache,
    {
        self.drop_pool(pool);
        self.add_pool_to_indexes(pool, &amm);
        proof {
            lemma_views_of_state(self.state@, pool, amm);
        }
        let _ = self.state.insert(pool, amm);
        assert(self@ =~= old(self)@.replaced(pool, amm@));
    }

    /// Lets go of `pool`, in the state and in the indexes.
    fn drop_pool(&mut self, pool: Address)
        requires
            old(self).wf(),
        ensures
            final(self).wf(),
            final(self)@ == old(self)@.dropped(pool),
            final(self).cache == old(self).cache,
    {
        proof {
            if self.state@.contains_key(pool) {
                lemma_views_of_state(self.state@, pool, self.state@[pool]);
            }
        }
        match self.state.remove(&pool) {
            Some(amm) => {
                self.remove_pool_from_indexes(pool, &amm);
            },
            None => {
                assert(old(self)@.state.remove(pool) =~= old(self)@.state);
                assert(self@.state =~= old(self)@.state);
            },
        }
        assert(self@ =~= old(self)@.dropped(pool));
    }

    /// Holds `amm` under `pool` without telling the indexes.
    fn hold_pool(&mut self, pool: Address, amm: AMM)
        requires
            old(self).wf(),
        ensures
            final(self).wf(),
            final(self)@ == old(self)@.held(pool, amm@),
    {
        proof {
            lemma_views_of_state(self.state@, pool, amm);
        }
        let _ = self.state.insert(pool, amm);
        assert(self@ =~= old(self)@.held(pool, amm@));
    }

    /// Undoes what came from `block_number` and later, if the latest block is that far.
    fn reorganize(&mut self, block_number: u64)
        requires
            old(self).wf(),
        ensures
            final(self).wf(),
            final(self)@ == old(self)@.reorganized(block_number),
    {
        if self.latest_block >= block_number {
            let former = self.cache.unwind_state_changes(block_number);
            let ghost views = amm_views(former@);
            let ghost bare = self@;
            let mut i: usize = 0;
            while i < former.len()
                invariant
                    self.wf(),
                    i <= former@.len(),
                    views == amm_views(former@),
                    self@ == bare.restored(views.take(i as int)),
                decreases former@.len() - i,
            {
                let amm = former[i].clone();
                assert(views[i as int] == amm@);
                assert(views.take(i + 1).drop_last() =~= views.take(i as int));
                self.replace_pool(amm.address(), amm);
                i = i + 1;
            }
            assert(views.take(i as int) =~= views);
        }
    }

    /// Begins a pass over `logs` that stops at the first error.
    ///
    /// There is nothing to do without a log. Where the first log goes back to a block that has
    /// been applied, what came from that block and later is undone first.
    pub fn sync(&mut self, logs: &Vec<Log>) -> (run: Result<Option<SyncRun>, StateSpaceError>)
        requires
            old(self).wf(),
        ensures
            final(self).wf(),
            match run {
                Ok(None) => {
                    &&& logs@.len() == 0
                    &&& final(self)@ == old(self)@
                },
                Err(error) => {
                    &&& logs@.len() > 0
                    &&& logs@[0]@.block_number is None
                    &&& error == StateSpaceError::MissingBlockNumber
                    &&& final(self)@ == old(self)@
                },
                Ok(Some(started)) => {
                    &&& logs@.len() > 0
                    &&& logs@[0]@.block_number matches Some(first)
                    &&& started.wf()
                    &&& started@ == RunView::started(false, first, first)
                    &&& final(self)@ == old(self)@.reorganized(first)
                },
            },
    {
        if logs.len() == 0 {
            return Ok(None);
        }
        match logs[0].block_number {
            None => Err(StateSpaceError::MissingBlockNumber),
            Some(block_number) => {
                self.reorganize(block_number);
                Ok(Some(SyncRun::start(false, block_number, block_number)))
            },
        }
    }

    /// Begins a pass over `logs` that reads broken pools anew, as of `reset_block`.
    ///
    /// It starts as [`StateSpace::sync`] does.
    pub fn sync_v2(&mut self, logs: &Vec<Log>, reset_block: u64) -> (run: Result<
        Option<SyncRun>,
        StateSpaceError,
    >)
        requires
            old(self).wf(),
        ensures
            final(self).wf(),
            match run {
                Ok(None) => {
                    &&& logs@.len() == 0
                    &&& final(self)@ == old(self)@
                },
                Err(error) => {
                    &&& logs@.len() > 0
                    &&& logs@[0]@.block_number is None
                    &&& error == StateSpaceError::MissingBlockNumber
                    &&& final(self)@ == old(self)@
                },
                Ok(Some(started)) => {
                    &&& logs@.len() > 0
                    &&& logs@[0]@.block_number matches Some(first)
                    &&& started.wf()
                    &&& started@ == RunView::started(true, first, reset_block)
                    &&& final(self)@ == old(self)@.reorganized(first)
                },
            },
    {
        if logs.len() == 0 {
            return Ok(None);
        }
        match logs[0].block_number {
            None => Err(StateSpaceError::MissingBlockNumber),
            Some(block_number) => {
                self.reorganize(block_number);
                Ok(Some(SyncRun::start(true, block_number, reset_block)))
            },
        }
    }

    /// The position of the first factory that announces a new pool with `log`.
    fn is_pool_creation_event(log: &Log, factories: &Vec<Factory>) -> (factory: Option<usize>)
        requires
            log@.topics.len() > 0,
        ensures
            match factory {
                Some(at) => is_creation(factory_views(factories@), log@, at as int),
                None => is_no_creation(factory_views(factories@), log@),
            },
    {
        let signature = log.topics[0];
        let ghost views = factory_views(factories@);
        let mut i: usize = 0;
        while i < factories.len()
            invariant
                i <= factories@.len(),
                signature == log@.topics[0],
                views == factory_views(factories@),
                forall|j: int| 0 <= j < i ==> !announces(#[trigger] views[j], log@),
            decreases factories@.len() - i,
        {
            assert(views[i as int] == factories@[i as int]@);
            if factories[i].address.same_as(&log.address)
                && factories[i].discovery_event.same_as(&signature) {
                return Some(i);
            }
            i = i + 1;
        }
        None
    }

    /// How a pool is made anew as of `block_number`: from the factory of the concentrated liquidity
    /// pool that is held under its address. There is no way for any other pool.
    pub fn reset_pool_to_initial_state(
        &self,
        pool_address: Address,
        block_number: u64,
    ) -> (reset: Result<PoolReset, StateSpaceError>)
        requires
            self.wf(),
        ensures
            reset == (match self@.reset_of(pool_address, block_number) {
                Some(reset) => Ok::<PoolReset, StateSpaceError>(reset),
                None => Err(liquidity_underflow()),
            }),
    {
        match self.state.get(&pool_address) {
            Some(amm) => match &amm.pool {
                Pool::UniswapV3Pool(pool) => Ok(
                    PoolReset {
                        address: pool_address,
                        factory_address: pool.factory_address,
                        variant: Variant::UniswapV3,
                        block_number,
                    },
                ),
                Pool::UniswapV3VariantPool(pool) => Ok(
                    PoolReset {
                        address: pool_address,
                        factory_address: pool.factory_address,
                        variant: Variant::UniswapV3Variant,
                        block_number,
                    },
                ),
                _ => Err(
                    StateSpaceError::AMMError(
                        AMMError::UniswapV3Error(UniswapV3Error::LiquidityUnderflow),
                    ),
                ),
            },
            None => Err(
                StateSpaceError::AMMError(
                    AMMError::UniswapV3Error(UniswapV3Error::LiquidityUnderflow),
                ),
            ),
        }
    }

    /// Asks for a broken pool to be read anew, or drops it where that is impossible.
    fn mend_pool(&mut self, pool: Address, block_number: u64) -> (step: Step)
        requires
            old(self).wf(),
        ensures
            final(self).wf(),
            (final(self)@, step) == old(self)@.broken(pool, block_number),
    {
        match self.reset_pool_to_initial_state(pool, block_number) {
            Ok(reset) => Step::ResetPool(reset),
            Err(_) => {
                self.drop_pool(pool);
                Step::Settled
            },
        }
    }

    /// Remembers the changes of the block of the pass.
    fn remember(&mut self, run: &mut SyncRun)
        requires
            old(self).wf(),
            old(run).wf(),
        ensures
            final(self).wf(),
            final(run).wf(),
            final(self)@ == old(self)@.remembered(old(run)@.changed, old(run)@.block_number),
            final(run)@ == old(run)@.closed(),
    {
        let block_number = run.block_number;
        let changed = run.close();
        self.cache.push(StateChange::new(changed, block_number));
    }

    /// Takes up the next log of the pass.
    ///
    /// Fails at a log without a block number, unless the pass takes all logs for one block.
    pub fn next_log(
        &mut self,
        run: &mut SyncRun,
        logs: &Vec<Log>,
        factories: &Vec<Factory>,
    ) -> (step: Result<Step, StateSpaceError>)
        requires
            old(self).wf(),
            old(run).wf(),
            old(run)@.position < logs@.len(),
            old(run)@.protected || logs@[old(run)@.position as int]@.block_number is Some
                ==> logs@[old(run)@.position as int]@.topics.len() > 0,
        ensures
            final(self).wf(),
            final(run).wf(),
            ({
                let log = logs@[old(run)@.position as int]@;
                let (space, next, wanted) = taken_up(
                    old(self)@,
                    old(run)@,
                    log,
                    factory_views(factories@),
                );
                if !old(run)@.protected && log.block_number is None {
                    &&& step == Err::<Step, StateSpaceError>(StateSpaceError::MissingBlockNumber)
                    &&& final(self)@ == old(self)@
                    &&& final(run)@ == old(run)@
                } else {
                    &&& step == Ok::<Step, StateSpaceError>(wanted)
                    &&& final(self)@ == space
                    &&& final(run)@ == next
                }
            }),
    {
        let position: usize = run.position;
        assert(position < logs.len());
        let log = &logs[position];
        let ghost views = factory_views(factories@);
        if !run.protected {
            match log.block_number {
                None => {
                    return Err(StateSpaceError::MissingBlockNumber);
                },
                Some(block_number) => {
                    if block_number != run.block_number {
                        self.remember(run);
                        run.block_number = block_number;
                    }
                },
            }
        }
        run.position = position + 1;
        if let Some(at) = Self::is_pool_creation_event(log, factories) {
            proof {
                assert(is_creation(views, log@, at as int));
                assert(announces(views[at as int], log@));
                let chosen = choose|i: int| is_creation(views, log@, i);
                assert(is_creation(views, log@, chosen));
                assert(chosen == at) by {
                    if chosen < at {
                        assert(!announces(views[chosen], log@));
                    }
                    if at < chosen {
                        assert(!announces(views[at as int], log@));
                    }
                }
            }
            return Ok(Step::CreatePool(at));
        }
        let amm = match self.state.get(&log.address) {
            Some(amm) => amm.clone(),
            None => {
                return Ok(Step::Settled);
            },
        };
        let lost = run.protected && amm.has_lost_ticks();
        run.note(amm);
        if lost {
            Ok(self.mend_pool(log.address, run.reset_block))
        } else {
            Ok(Step::SyncPool(log.address))
        }
    }

    /// Takes in what came of initialising a new pool: it is held and indexed, tried again a few
    /// times, or given up.
    pub fn pool_initialized(
        &mut self,
        run: &mut SyncRun,
        request: InitRequest,
        result: Result<AMM, AMMError>,
    ) -> (step: InitStep)
        requires
            old(self).wf(),
            old(run).wf(),
        ensures
            final(self).wf(),
            final(run).wf(),
            match result {
                Ok(amm) => {
                    &&& step == InitStep::Initialized
                    &&& (final(self)@, final(run)@) == joined(
                        old(self)@,
                        old(run)@,
                        request.address,
                        amm@,
                    )
                    &&& final(self)@.state == old(self)@.state.insert(request.address, amm@)
                    &&& final(self)@ == old(self)@.held(request.address, amm@).indexed(
                        request.address,
                        amm@,
                    )
                    &&& final(run)@ == (RunView {
                        affected: old(run)@.affected.insert(request.address),
                        ..old(run)@
                    })
                },
                Err(_) => {
                    &&& step == after_failure(request)
                    &&& final(self)@ == old(self)@
                    &&& final(run)@ == old(run)@
                },
            },
    {
        match result {
            Ok(amm) => {
                self.add_pool_to_indexes(request.address, &amm);
                self.hold_pool(request.address, amm);
                run.affected.insert(request.address);
                InitStep::Initialized
            },
            Err(_) => {
                if request.retries < MAX_RETRIES {
                    InitStep::Retry(
                        InitRequest {
                            address: request.address,
                            block_number: request.block_number,
                            retries: request.retries + 1,
                            delay_secs: RETRY_DELAY_SECS,
                        },
                    )
                } else {
                    InitStep::GivenUp
                }
            },
        }
    }

    /// Takes in what came of applying a log to the pool held under `address`, which left the pool
    /// as `amm`.
    ///
    /// A synced pool replaces the former one. An error ends the pass. A protected pass has a pool
    /// that panicked with an underflow read anew, and drops one that panicked otherwise.
    pub fn pool_synced(
        &mut self,
        run: &SyncRun,
        address: Address,
        amm: AMM,
        outcome: SyncOutcome,
    ) -> (step: Result<Step, StateSpaceError>)
        requires
            old(self).wf(),
            run@.protected || !(outcome is Panicked),
        ensures
            final(self).wf(),
            (final(self)@, step) == synced(
                old(self)@,
                run@.reset_block,
                address,
                amm@,
                outcome,
            ),
            outcome is Synced && old(self)@.state.contains_key(address) ==> final(self)@.state
                == old(self)@.state.insert(address, amm@),
            !old(self)@.state.contains_key(address) ==> final(self)@ == old(self)@,
    {
        if self.state.get(&address).is_none() {
            return Err(
                StateSpaceError::AMMError(
                    AMMError::UniswapV3Error(UniswapV3Error::LiquidityUnderflow),
                ),
            );
        }
        match outcome {
            SyncOutcome::Synced => {
                self.replace_pool(address, amm);
                Ok(Step::Settled)
            },
            SyncOutcome::Failed(error) => {
                self.hold_pool(address, amm);
                Err(StateSpaceError::AMMError(error))
            },
            SyncOutcome::Panicked(message) => {
                self.hold_pool(address, amm);
                if contains(message.as_str(), "attempt to subtract with overflow") || contains(
                    message.as_str(),
                    "LiquidityUnderflow",
                ) {
                    Ok(self.mend_pool(address, run.reset_block))
                } else {
                    self.drop_pool(address);
                    Ok(Step::Settled)
                }
            },
        }
    }

    /// Takes in what came of reading a broken pool anew: the fresh pool replaces it, or else it
    /// is dropped.
    pub fn pool_reset(&mut self, run: &mut SyncRun, address: Address, result: Result<AMM, AMMError>)
        requires
            old(self).wf(),
            old(run).wf(),
        ensures
            final(self).wf(),
            final(run).wf(),
            (final(self)@, final(run)@) == mended(
                old(self)@,
                old(run)@,
                address,
                match result {
                    Ok(amm) => Some(amm@),
                    Err(_) => None,
                },
            ),
            match result {
                Ok(amm) => {
                    &&& final(self)@.state == old(self)@.state.insert(address, amm@)
                    &&& final(self)@ == old(self)@.replaced(address, amm@)
                    &&& final(run)@ == (RunView {
                        affected: old(run)@.affected.insert(address),
                        ..old(run)@
                    })
                },
                Err(_) => {
                    &&& final(self)@.state == old(self)@.state.remove(address)
                    &&& final(self)@ == old(self)@.dropped(address)
                    &&& final(run)@ == old(run)@
                },
            },
    {
        match result {
            Ok(amm) => {
                self.replace_pool(address, amm);
                run.affected.insert(address);
            },
            Err(_) => {
                self.drop_pool(address);
            },
        }
    }

    /// Ends a pass: remembers the changes of its last block, and tells which pools the pass has
    /// affected.
    pub fn finish_sync(&mut self, run: SyncRun) -> (affected: Vec<Address>)
        requires
            old(self).wf(),
            run.wf(),
        ensures
            final(self).wf(),
            final(self)@ == finished(old(self)@, run@),
            final(self)@.state == old(self)@.state,
            final(self)@ == (if run@.changed.len() > 0 {
                old(self)@.remembered(run@.changed, run@.block_number)
            } else {
                old(self)@
            }),
            affected@.no_duplicates(),
            affected@.to_set() == run@.closed().affected,
    {
        let mut run = run;
        if run.changed.len() > 0 {
            self.remember(&mut run);
        } else {
            assert(run@.closed().affected =~= run@.affected) by {
                assert(addresses_of(run@.changed) =~= Set::empty());
            }
        }
        run.affected.to_vec()
    }
}

} // verus!
