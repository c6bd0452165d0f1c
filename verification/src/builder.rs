//! Setting up a state space.
use crate::amm::{amm_views, AmmView, AMM};
use crate::error::AMMError;
use crate::factory::{Factory, FactoryView};
use crate::filters::{FilterStage, PoolFilter};
use crate::grouping::{assign, extension, group, grouped, list_views, unserved};
use crate::key_set::{lemma_push_to_set, KeySet};
use crate::log_filter::{
    event_filter, filter_block, filter_is_open, filter_signatures, signature_bytes,
};
use crate::manager::StateSpaceManager;
use crate::primitives::{Address, B256};
use crate::space::{lemma_views_of_state, pair_index_of, token_index_of, SpaceView, StateSpace};
use crate::sync::factory_views;
use alloy::rpc::types::Filter;
use std::marker::PhantomData;
use vstd::prelude::*;

verus! {

/// What a state space is made of.
#[derive(Debug, Default)]
pub struct StateSpaceBuilder<N, P> {
    pub provider: P,
    pub latest_block: u64,
    pub factories: Vec<Factory>,
    pub amms: Vec<AMM>,
    pub filters: Vec<PoolFilter>,
    pub phantom: PhantomData<N>,
}

/// `event` announces a new pool of `factory`, or changes one of its pools.
pub open spec fn concerns(factory: FactoryView, event: B256) -> bool {
    factory.discovery_event == event || factory.pool_events.contains(event)
}

/// The signatures of all events that concern these factories and pools.
pub open spec fn watched_events(factories: Seq<FactoryView>, amms: Seq<AmmView>) -> Set<B256> {
    Set::new(
        |event: B256|
            {
                ||| exists|i: int|
                    0 <= i < factories.len() && #[trigger] concerns(factories[i], event)
                ||| exists|i: int|
                    0 <= i < amms.len() && #[trigger] amms[i].sync_events.contains(event)
            },
    )
}

/// `filter` lists the watched events and no others, is not made for a single block, and puts no
/// condition on who emitted a log nor on its further topics.
pub open spec fn watches(
    filter: Filter,
    factories: Seq<FactoryView>,
    amms: Seq<AmmView>,
) -> bool {
    &&& filter_signatures(filter) == watched_events(factories, amms).map(
        |event: B256| signature_bytes(event),
    )
    &&& filter_block(filter) == None::<u64>
    &&& filter_is_open(filter)
}

/// `state` with each of `amms` held under its own address; of two pools with the same address the
/// later one stays.
pub open spec fn with_pools(state: Map<Address, AmmView>, amms: Seq<AmmView>) -> Map<
    Address,
    AmmView,
>
    decreases amms.len(),
{
    if amms.len() == 0 {
        state
    } else {
        with_pools(state, amms.drop_last()).insert(amms.last().address, amms.last())
    }
}

/// What is to be done with the pools of a factory.
#[derive(Clone, Copy, Debug, PartialEq, Eq)]
pub enum PipelineStep {
    /// Find the pools, and add those that the factory takes over.
    Discover,
    /// Apply the filter at this position.
    ApplyFilter(usize),
    /// Read the state of the pools.
    Sync,
}

/// The filters of a stage, in order.
pub open spec fn stage_steps(filters: Seq<PoolFilter>, stage: FilterStage) -> Seq<PipelineStep>
    decreases filters.len(),
{
    if filters.len() == 0 {
        Seq::empty()
    } else {
        let before = stage_steps(filters.drop_last(), stage);
        if filters.last().stage == stage {
            before.push(PipelineStep::ApplyFilter((filters.len() - 1) as usize))
        } else {
            before
        }
    }
}

/// All that is to be done with the pools of a factory, in order.
pub open spec fn pipeline_steps(filters: Seq<PoolFilter>) -> Seq<PipelineStep> {
    seq![PipelineStep::Discover] + stage_steps(filters, FilterStage::Discovery)
        + seq![PipelineStep::Sync] + stage_steps(filters, FilterStage::Sync)
}

impl<N, P> StateSpaceBuilder<N, P> {
    /// Starts with a provider and nothing else.
    pub fn new(provider: P) -> (builder: StateSpaceBuilder<N, P>)
        ensures
            builder.provider == provider,
            builder.latest_block == 0,
            builder.factories@ == Seq::<Factory>::empty(),
            builder.amms@ == Seq::<AMM>::empty(),
            builder.filters@ == Seq::<PoolFilter>::empty(),
    {
        StateSpaceBuilder {
            provider,
            latest_block: 0,
            factories: Vec::new(),
            amms: Vec::new(),
            filters: Vec::new(),
            phantom: PhantomData,
        }
    }

    /// Sets the block that the space starts from.
    pub fn block(self, latest_block: u64) -> (builder: StateSpaceBuilder<N, P>)
        ensures
            builder == (StateSpaceBuilder { latest_block, ..self }),
    {
        StateSpaceBuilder { latest_block, ..self }
    }

    /// Sets the factories whose pools are followed.
    pub fn with_factories(self, factories: Vec<Factory>) -> (builder: StateSpaceBuilder<N, P>)
        ensures
            builder == (StateSpaceBuilder { factories, ..self }),
    {
        StateSpaceBuilder { factories, ..self }
    }

    /// Sets the pools that are followed besides those of the factories.
    pub fn with_amms(self, amms: Vec<AMM>) -> (builder: StateSpaceBuilder<N, P>)
        ensures
            builder == (StateSpaceBuilder { amms, ..self }),
    {
        StateSpaceBuilder { amms, ..self }
    }

    /// Sets the filters that pools pass.
    pub fn with_filters(self, filters: Vec<PoolFilter>) -> (builder: StateSpaceBuilder<N, P>)
        ensures
            builder == (StateSpaceBuilder { filters, ..self }),
    {
        StateSpaceBuilder { filters, ..self }
    }

    /// Begins to set up the space from the chain.
    ///
    /// Each factory takes over the listed pools of its protocol, unless an earlier factory of the
    /// same protocol has them; the rest is left to be initialised one by one.
    pub fn sync(self) -> (sync: SpaceSync<N, P>)
        ensures
            sync.wf(),
            sync.space@ == SpaceView::empty(),
            list_views(sync.extensions@) == Seq::new(
                self.factories@.len(),
                |i: int| extension(amm_views(self.amms@), factory_views(self.factories@), i),
            ),
            amm_views(sync.remaining@) == grouped(
                unserved(
                    amm_views(self.amms@),
                    factory_views(self.factories@),
                    self.factories@.len() as int,
                ),
            ),
            watches(
                sync.block_filter,
                factory_views(self.factories@),
                amm_views(self.amms@),
            ),
            sync.provider == self.provider,
            sync.latest_block == self.latest_block,
            sync.factories == self.factories,
            sync.filters == self.filters,
    {
        let block_filter = watch(&self.factories, &self.amms);
        let (extensions, rest) = assign(self.amms, &self.factories);
        SpaceSync {
            space: StateSpace::default(),
            extensions,
            remaining: group(rest),
            latest_block: self.latest_block,
            block_filter,
            provider: self.provider,
            factories: self.factories,
            filters: self.filters,
            phantom: PhantomData,
        }
    }

    /// Sets up the space from the listed pools alone, as they are. The indexes stay empty.
    pub fn no_sync(self) -> (manager: Result<StateSpaceManager<N, P>, AMMError>)
        ensures
            manager matches Ok(manager) && {
                &&& manager.state.wf()
                &&& manager.state@ == (SpaceView {
                    state: with_pools(Map::empty(), grouped(amm_views(self.amms@))),
                    ..SpaceView::empty()
                })
                &&& watches(
                    manager.block_filter,
                    factory_views(self.factories@),
                    amm_views(self.amms@),
                )
                &&& manager.latest_block == self.latest_block
                &&& manager.provider == self.provider
                &&& manager.factories == self.factories
            },
    {
        let block_filter = watch(&self.factories, &self.amms);
        let mut space = StateSpace::default();
        hold_pools(&mut space, group(self.amms));
        Ok(
            StateSpaceManager {
                state: space,
                latest_block: self.latest_block,
                block_filter,
                provider: self.provider,
                factories: self.factories,
                phantom: PhantomData,
            },
        )
    }
}

/// A state space that is being set up from the chain.
pub struct SpaceSync<N, P> {
    pub space: StateSpace,
    /// For each factory, the pools that it takes over.
    pub extensions: Vec<Vec<AMM>>,
    /// The pools that have no factory and are still to be initialised.
    pub remaining: Vec<AMM>,
    pub latest_block: u64,
    pub block_filter: Filter,
    pub provider: P,
    pub factories: Vec<Factory>,
    pub filters: Vec<PoolFilter>,
    pub phantom: PhantomData<N>,
}

impl<N, P> SpaceSync<N, P> {
    /// The space is in order.
    pub open spec fn wf(&self) -> bool {
        self.space.wf()
    }

    /// What is to be done with the pools of each factory, in order.
    pub fn pipeline(&self) -> (steps: Vec<PipelineStep>)
        ensures
            steps@ == pipeline_steps(self.filters@),
    {
        let mut steps: Vec<PipelineStep> = Vec::new();
        steps.push(PipelineStep::Discover);
        append_stage(&mut steps, &self.filters, FilterStage::Discovery);
        steps.push(PipelineStep::Sync);
        append_stage(&mut steps, &self.filters, FilterStage::Sync);
        assert(steps@ =~= pipeline_steps(self.filters@));
        steps
    }

    /// Adds the pools that a factory takes over to those that it has discovered.
    pub fn pools_discovered(&mut self, factory: usize, discovered: Vec<AMM>) -> (pools: Vec<AMM>)
        requires
            factory < old(self).extensions@.len(),
        ensures
            amm_views(pools@) == amm_views(discovered@) + list_views(
                old(self).extensions@,
            )[factory as int],
            list_views(final(self).extensions@) == list_views(old(self).extensions@).update(
                factory as int,
                Seq::empty(),
            ),
            *final(self) == (SpaceSync { extensions: final(self).extensions, ..*old(self) }),
    {
        let mut pools = discovered;
        let mut taken: Vec<AMM> = Vec::new();
        std::mem::swap(&mut taken, &mut self.extensions[factory]);
        let ghost these = taken@;
        pools.append(&mut taken);
        assert(amm_views(pools@) =~= amm_views(discovered@) + amm_views(these));
        assert(amm_views(self.extensions@[factory as int]@) =~= Seq::empty());
        assert(list_views(self.extensions@) =~= list_views(old(self).extensions@).update(
            factory as int,
            Seq::empty(),
        ));
        pools
    }

    /// Holds the pools that a factory has synced.
    pub fn factory_synced(&mut self, synced_amms: Vec<AMM>)
        requires
            old(self).wf(),
        ensures
            final(self).wf(),
            final(self).space@ == (SpaceView {
                state: with_pools(old(self).space@.state, amm_views(synced_amms@)),
                ..old(self).space@
            }),
            *final(self) == (SpaceSync { space: final(self).space, ..*old(self) }),
    {
        hold_pools(&mut self.space, synced_amms);
    }

    /// Takes the next pool that has no factory.
    pub fn next_remaining(&mut self) -> (amm: Option<AMM>)
        ensures
            match amm {
                Some(amm) => {
                    &&& amm_views(old(self).remaining@).len() > 0
                    &&& amm@ == amm_views(old(self).remaining@)[0]
                    &&& amm_views(final(self).remaining@) == amm_views(
                        old(self).remaining@,
                    ).drop_first()
                },
                None => {
                    &&& old(self).remaining@.len() == 0
                    &&& final(self).remaining == old(self).remaining
                },
            },
            *final(self) == (SpaceSync { remaining: final(self).remaining, ..*old(self) }),
    {
        if self.remaining.len() == 0 {
            return None;
        }
        let amm = self.remaining.remove(0);
        assert(amm_views(self.remaining@) =~= amm_views(old(self).remaining@).drop_first());
        Some(amm)
    }

    /// Holds a pool without factory that has been initialised.
    pub fn remaining_initialized(&mut self, address: Address, amm: AMM)
        requires
            old(self).wf(),
        ensures
            final(self).wf(),
            final(self).space@ == old(self).space@.held(address, amm@),
            *final(self) == (SpaceSync { space: final(self).space, ..*old(self) }),
    {
        proof {
            lemma_views_of_state(self.space.state@, address, amm);
        }
        let _ = self.space.state.insert(address, amm);
        assert(self.space@ =~= old(self).space@.held(address, amm@));
    }

    /// Builds the indexes and ends the set-up.
    pub fn finish(self) -> (manager: StateSpaceManager<N, P>)
        requires
            self.wf(),
        ensures
            manager.state.wf(),
            manager.state@ == (SpaceView {
                token_to_pools: token_index_of(self.space@.state),
                token_pair_to_pools: pair_index_of(self.space@.state),
                ..self.space@
            }),
            manager.state@.is_in_step(),
            manager.latest_block == self.latest_block,
            manager.block_filter == self.block_filter,
            manager.provider == self.provider,
            manager.factories == self.factories,
    {
        let mut space = self.space;
        space.rebuild_indexes();
        StateSpaceManager {
            state: space,
            latest_block: self.latest_block,
            block_filter: self.block_filter,
            provider: self.provider,
            factories: self.factories,
            phantom: PhantomData,
        }
    }
}

/// Appends the filters of a stage.
fn append_stage(steps: &mut Vec<PipelineStep>, filters: &Vec<PoolFilter>, stage: FilterStage)
    ensures
        final(steps)@ == old(steps)@ + stage_steps(filters@, stage),
{
    let mut i: usize = 0;
    assert(filters@.take(0) =~= Seq::empty());
    assert(steps@ + stage_steps(filters@.take(0), stage) =~= steps@);
    while i < filters.len()
        invariant
            i <= filters@.len(),
            steps@ == old(steps)@ + stage_steps(filters@.take(i as int), stage),
        decreases filters@.len() - i,
    {
        let ghost had = steps@;
        assert(filters@.take(i + 1).drop_last() =~= filters@.take(i as int));
        if filters[i].stage() == stage {
            steps.push(PipelineStep::ApplyFilter(i));
        }
        assert(steps@ =~= old(steps)@ + stage_steps(filters@.take(i + 1), stage));
        i = i + 1;
    }
    assert(filters@.take(i as int) =~= filters@);
}

/// Holds each of `amms` under its own address. The indexes are not told.
fn hold_pools(space: &mut StateSpace, amms: Vec<AMM>)
    requires
        old(space).wf(),
    ensures
        final(space).wf(),
        final(space)@ == (SpaceView {
            state: with_pools(old(space)@.state, amm_views(amms@)),
            ..old(space)@
        }),
{
    let ghost all = amms@;
    let ghost views = amm_views(all);
    let ghost before = space@;
    assert(views.take(0) =~= Seq::empty());
    for amm in iter: amms
        invariant
            space.wf(),
            iter.seq() == all,
            views == amm_views(all),
            space@ == (SpaceView {
                state: with_pools(before.state, views.take(iter.index())),
                ..before
            }),
    {
        let ghost i = iter.index();
        let address = amm.address();
        proof {
            assert(views[i] == amm@);
            assert(views.take(i + 1).drop_last() =~= views.take(i));
            lemma_views_of_state(space.state@, address, amm);
        }
        let _ = space.state.insert(address, amm);
    }
    assert(views.take(views.len() as int) =~= views);
}

/// The filter for the logs that concern these factories and pools.
fn watch(factories: &Vec<Factory>, amms: &Vec<AMM>) -> (filter: Filter)
    ensures
        watches(filter, factory_views(factories@), amm_views(amms@)),
{
    let mut events: KeySet<B256> = KeySet::new();
    let ghost makers = factory_views(factories@);
    let ghost pools = amm_views(amms@);
    let mut i: usize = 0;
    assert(events@ =~= watched_events(makers.take(0), Seq::empty()));
    while i < factories.len()
        invariant
            events.wf(),
            i <= factories@.len(),
            makers == factory_views(factories@),
            events@ == watched_events(makers.take(i as int), Seq::empty()),
        decreases factories@.len() - i,
    {
        let factory = &factories[i];
        events.insert(factory.discovery_event);
        insert_events(&mut events, &factory.pool_events);
        proof {
            let now = makers.take(i + 1);
            let then = makers.take(i as int);
            assert(now[i as int] == factory@);
            assert forall|event: B256|
                events@.contains(event) <==> watched_events(now, Seq::empty()).contains(event) by {
                if watched_events(then, Seq::empty()).contains(event) {
                    let j = choose|j: int|
                        0 <= j < then.len() && #[trigger] concerns(then[j], event);
                    assert(concerns(now[j], event));
                }
                if concerns(factory@, event) {
                    assert(concerns(now[i as int], event));
                }
                if watched_events(now, Seq::empty()).contains(event) {
                    let j = choose|j: int|
                        0 <= j < now.len() && #[trigger] concerns(now[j], event);
                    if j < i {
                        assert(concerns(then[j], event));
                    }
                }
            }
            assert(events@ =~= watched_events(now, Seq::empty()));
        }
        i = i + 1;
    }
    assert(makers.take(i as int) =~= makers);
    assert(pools.take(0) =~= Seq::empty());
    let mut k: usize = 0;
    while k < amms.len()
        invariant
            events.wf(),
            k <= amms@.len(),
            pools == amm_views(amms@),
            events@ == watched_events(makers, pools.take(k as int)),
        decreases amms@.len() - k,
    {
        let amm = &amms[k];
        insert_events(&mut events, &amm.sync_events);
        proof {
            let now = pools.take(k + 1);
            let then = pools.take(k as int);
            assert(pools[k as int] == amm@);
            assert forall|event: B256|
                events@.contains(event) <==> watched_events(makers, now).contains(event) by {
                if exists|j: int|
                    0 <= j < then.len() && #[trigger] then[j].sync_events.contains(event) {
                    let j = choose|j: int|
                        0 <= j < then.len() && #[trigger] then[j].sync_events.contains(event);
                    assert(now[j] == then[j]);
                }
                if amm@.sync_events.contains(event) {
                    assert(now[k as int] == amm@);
                }
                if exists|j: int|
                    0 <= j < now.len() && #[trigger] now[j].sync_events.contains(event) {
                    let j = choose|j: int|
                        0 <= j < now.len() && #[trigger] now[j].sync_events.contains(event);
                    if j < k {
                        assert(then[j] == now[j]);
                    }
                }
            }
            assert(events@ =~= watched_events(makers, now));
        }
        k = k + 1;
    }
    assert(pools.take(k as int) =~= pools);
    let list = events.to_vec();
    let filter = event_filter(&list);
    proof {
        let words = list@.map_values(|event: B256| signature_bytes(event));
        let expected = events@.map(|event: B256| signature_bytes(event));
        assert forall|word: Seq<u8>| words.to_set().contains(word) <==> expected.contains(word) by {
            if words.contains(word) {
                let j = words.index_of(word);
                assert(list@.to_set().contains(list@[j]));
                assert(word == signature_bytes(list@[j]));
            }
            if expected.contains(word) {
                let event = choose|event: B256|
                    events@.contains(event) && word == signature_bytes(event);
                assert(list@.to_set().contains(event));
                let j = list@.index_of(event);
                assert(words[j] == word);
            }
        }
        assert(words.to_set() =~= expected);
    }
    filter
}

/// Adds every event of a list.
fn insert_events(events: &mut KeySet<B256>, more: &Vec<B256>)
    requires
        old(events).wf(),
    ensures
        final(events).wf(),
        forall|event: B256|
            #[trigger] final(events)@.contains(event) <==> old(events)@.contains(event)
                || more@.contains(event),
{
    let mut i: usize = 0;
    while i < more.len()
        invariant
            events.wf(),
            i <= more@.len(),
            forall|event: B256|
                events@.contains(event) <==> old(events)@.contains(event) || more@.take(
                    i as int,
                ).contains(event),
        decreases more@.len() - i,
    {
        let word = more[i];
        events.insert(word);
        proof {
            let then = more@.take(i as int);
            assert(more@.take(i + 1) =~= then.push(word));
            lemma_push_to_set(then, word);
            assert forall|event: B256|
                events@.contains(event) <==> old(events)@.contains(event) || more@.take(
                    i + 1,
                ).contains(event) by {
                assert(then.push(word).to_set().contains(event) <==> then.to_set().insert(
                    word,
                ).contains(event));
            }
        }
        i = i + 1;
    }
    assert(more@.take(i as int) =~= more@);
}

} // verus!
