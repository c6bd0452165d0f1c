//! What a set-up amounts to, whatever the order of its steps.
use crate::amm::{AmmView, Variant};
use crate::builder::{
    concerns, pipeline_steps, stage_steps, watched_events, watches, with_pools, PipelineStep,
};
use crate::factory::FactoryView;
use crate::filters::{FilterStage, PoolFilter};
use crate::grouping::{
    extension, grouped, is_served, law_grouping_keeps_every_pool, of_variant, unserved,
};
use crate::key_set::lemma_push_to_set;
use crate::log_filter::{filter_block, filter_is_open, filter_signatures, signature_bytes};
use crate::pass::is_well_keyed;
use crate::primitives::{Address, B256};
use alloy::rpc::types::Filter;
use vstd::prelude::*;

verus! {

/// However pools come to be held while a space is set up, each is held under its own address.
pub proof fn law_pools_are_held_under_their_addresses(
    state: Map<Address, AmmView>,
    amms: Seq<AmmView>,
)
    requires
        is_well_keyed(state),
    ensures
        is_well_keyed(with_pools(state, amms)),
    decreases amms.len(),
{
    if amms.len() > 0 {
        law_pools_are_held_under_their_addresses(state, amms.drop_last());
    }
}

/// The pools that a whole set-up holds: those that the factories have synced, in the order in
/// which they were done, and those without factory, each with the address that it was listed with.
pub open spec fn set_up(
    results: Seq<Seq<AmmView>>,
    initialized: Seq<(Address, AmmView)>,
) -> Map<Address, AmmView>
    decreases results.len() + initialized.len(),
{
    if initialized.len() > 0 {
        set_up(results, initialized.drop_last()).insert(
            initialized.last().0,
            initialized.last().1,
        )
    } else if results.len() > 0 {
        with_pools(set_up(results.drop_last(), initialized), results.last())
    } else {
        Map::empty()
    }
}

/// Each step of a set-up adds what it was given.
pub proof fn law_set_up_goes_step_by_step(
    results: Seq<Seq<AmmView>>,
    synced_amms: Seq<AmmView>,
    initialized: Seq<(Address, AmmView)>,
    address: Address,
    amm: AmmView,
)
    ensures
        set_up(Seq::empty(), Seq::empty()) == Map::<Address, AmmView>::empty(),
        set_up(results.push(synced_amms), Seq::empty()) == with_pools(
            set_up(results, Seq::empty()),
            synced_amms,
        ),
        set_up(results, initialized.push((address, amm))) == set_up(results, initialized).insert(
            address,
            amm,
        ),
{
    assert(results.push(synced_amms).drop_last() =~= results);
    assert(initialized.push((address, amm)).drop_last() =~= initialized);
}

/// The pool comes out of a set-up under this address.
pub open spec fn comes_from(
    results: Seq<Seq<AmmView>>,
    initialized: Seq<(Address, AmmView)>,
    address: Address,
    amm: AmmView,
) -> bool {
    ||| amm.address == address && exists|i: int|
        0 <= i < results.len() && #[trigger] results[i].contains(amm)
    ||| initialized.contains((address, amm))
}

/// No two different pools come out of a set-up under the same address.
pub open spec fn has_one_pool_each(
    results: Seq<Seq<AmmView>>,
    initialized: Seq<(Address, AmmView)>,
) -> bool {
    forall|address: Address, a: AmmView, b: AmmView|
        #[trigger] comes_from(results, initialized, address, a) && #[trigger] comes_from(
            results,
            initialized,
            address,
            b,
        ) ==> a == b
}

proof fn lemma_with_pools(state: Map<Address, AmmView>, amms: Seq<AmmView>, address: Address)
    ensures
        ({
            let after = with_pools(state, amms);
            &&& after.contains_key(address) ==> (amms.contains(after[address])
                && after[address].address == address) || (state.contains_key(address)
                && after[address] == state[address])
            &&& state.contains_key(address) ==> after.contains_key(address)
            &&& forall|amm: AmmView| #[trigger]
                amms.contains(amm) && amm.address == address ==> after.contains_key(address)
        }),
    decreases amms.len(),
{
    if amms.len() > 0 {
        let init = amms.drop_last();
        let last = amms.last();
        lemma_with_pools(state, init, address);
        let after = with_pools(state, amms);
        assert(amms =~= init.push(last));
        assert(amms[amms.len() - 1] == last);
        if after.contains_key(address) && address != last.address && init.contains(
            after[address],
        ) {
            let i = init.index_of(after[address]);
            assert(amms[i] == after[address]);
        }
        assert forall|amm: AmmView| #[trigger]
            amms.contains(amm) && amm.address == address implies after.contains_key(address) by {
            let i = amms.index_of(amm);
            if i < init.len() {
                assert(init[i] == amm);
                assert(init.contains(amm));
            }
        }
    }
}

/// Everything that a set-up holds comes out of it, and for everything that comes out of it
/// something is held under the same address.
proof fn lemma_set_up(
    results: Seq<Seq<AmmView>>,
    initialized: Seq<(Address, AmmView)>,
    address: Address,
)
    ensures
        ({
            let state = set_up(results, initialized);
            &&& state.contains_key(address) ==> comes_from(
                results,
                initialized,
                address,
                state[address],
            )
            &&& forall|amm: AmmView| #[trigger]
                comes_from(results, initialized, address, amm) ==> state.contains_key(address)
        }),
    decreases results.len() + initialized.len(),
{
    let state = set_up(results, initialized);
    if initialized.len() > 0 {
        let init = initialized.drop_last();
        let last = initialized.last();
        lemma_set_up(results, init, address);
        let before = set_up(results, init);
        assert(initialized[initialized.len() - 1] == last);
        if state.contains_key(address) && address != last.0 {
            if init.contains((address, before[address])) {
                let i = init.index_of((address, before[address]));
                assert(initialized[i] == (address, before[address]));
            }
        }
        assert forall|amm: AmmView| #[trigger]
            comes_from(results, initialized, address, amm) implies state.contains_key(address) by {
            if initialized.contains((address, amm)) {
                let i = initialized.index_of((address, amm));
                if i < init.len() {
                    assert(init[i] == (address, amm));
                }
            }
            assert(comes_from(results, init, address, amm) || last == (address, amm));
        }
    } else if results.len() > 0 {
        let init = results.drop_last();
        let last = results.last();
        let before = set_up(init, initialized);
        lemma_set_up(init, initialized, address);
        lemma_with_pools(before, last, address);
        assert(results[results.len() - 1] == last);
        if state.contains_key(address) && before.contains_key(address) && state[address]
            == before[address] {
            let amm = before[address];
            if exists|i: int| 0 <= i < init.len() && #[trigger] init[i].contains(amm) {
                let i = choose|i: int| 0 <= i < init.len() && #[trigger] init[i].contains(amm);
                assert(results[i].contains(amm));
            }
        }
        assert forall|amm: AmmView| #[trigger]
            comes_from(results, initialized, address, amm) implies state.contains_key(address) by {
            let i = choose|i: int| 0 <= i < results.len() && #[trigger] results[i].contains(amm);
            if i < init.len() {
                assert(init[i].contains(amm));
                assert(comes_from(init, initialized, address, amm));
            }
        }
    }
}

/// A set-up holds exactly what the factories have synced and what was initialised one by one,
/// each under its own address, if no address has two different pools.
pub proof fn law_set_up_holds_everything(
    results: Seq<Seq<AmmView>>,
    initialized: Seq<(Address, AmmView)>,
    address: Address,
    amm: AmmView,
)
    requires
        has_one_pool_each(results, initialized),
    ensures
        comes_from(results, initialized, address, amm) <==> {
            &&& set_up(results, initialized).contains_key(address)
            &&& set_up(results, initialized)[address] == amm
        },
{
    lemma_set_up(results, initialized, address);
}

/// The order in which the factories are done does not matter, nor that of the pools without
/// factory, if no address has two different pools.
pub proof fn law_order_of_set_up_does_not_matter(
    results: Seq<Seq<AmmView>>,
    initialized: Seq<(Address, AmmView)>,
    other_results: Seq<Seq<AmmView>>,
    other_initialized: Seq<(Address, AmmView)>,
)
    requires
        has_one_pool_each(results, initialized),
        forall|result: Seq<AmmView>|
            results.contains(result) <==> #[trigger] other_results.contains(result),
        forall|entry: (Address, AmmView)|
            initialized.contains(entry) <==> #[trigger] other_initialized.contains(entry),
    ensures
        set_up(results, initialized) == set_up(other_results, other_initialized),
{
    assert forall|address: Address, amm: AmmView| #[trigger]
        comes_from(results, initialized, address, amm) == comes_from(
            other_results,
            other_initialized,
            address,
            amm,
        ) by {
        if exists|i: int| 0 <= i < results.len() && #[trigger] results[i].contains(amm) {
            let i = choose|i: int| 0 <= i < results.len() && #[trigger] results[i].contains(amm);
            assert(other_results.contains(results[i]));
            let j = other_results.index_of(results[i]);
            assert(other_results[j].contains(amm));
        }
        if exists|i: int| 0 <= i < other_results.len() && #[trigger] other_results[i].contains(
            amm,
        ) {
            let i = choose|i: int|
                0 <= i < other_results.len() && #[trigger] other_results[i].contains(amm);
            assert(other_results.contains(other_results[i]));
            let j = results.index_of(other_results[i]);
            assert(results[j].contains(amm));
        }
        assert(initialized.contains((address, amm)) <==> other_initialized.contains(
            (address, amm),
        ));
    }
    let (state, other) = (
        set_up(results, initialized),
        set_up(other_results, other_initialized),
    );
    assert forall|address: Address| #[trigger]
        state.contains_key(address) <==> other.contains_key(address) by {
        lemma_set_up(results, initialized, address);
        lemma_set_up(other_results, other_initialized, address);
        if state.contains_key(address) {
            assert(comes_from(results, initialized, address, state[address]));
        }
        if other.contains_key(address) {
            assert(comes_from(results, initialized, address, other[address]));
        }
    }
    assert forall|address: Address| #[trigger] state.contains_key(address) implies state[address]
        == other[address] by {
        lemma_set_up(results, initialized, address);
        lemma_set_up(other_results, other_initialized, address);
        assert(comes_from(results, initialized, address, state[address]));
        assert(comes_from(results, initialized, address, other[address]));
    }
    assert(state =~= other);
}

/// A filter is applied in the stage that it names, and in no other.
pub proof fn law_each_filter_is_applied_in_its_stage(
    filters: Seq<PoolFilter>,
    stage: FilterStage,
    at: int,
)
    requires
        0 <= at < filters.len() <= usize::MAX,
    ensures
        stage_steps(filters, stage).contains(PipelineStep::ApplyFilter(at as usize))
            <==> filters[at].stage == stage,
    decreases filters.len(),
{
    let init = filters.drop_last();
    let before = stage_steps(init, stage);
    let last = PipelineStep::ApplyFilter((filters.len() - 1) as usize);
    let step = PipelineStep::ApplyFilter(at as usize);
    if at < init.len() {
        law_each_filter_is_applied_in_its_stage(init, stage, at);
        lemma_push_to_set(before, last);
        assert(before.push(last).to_set().contains(step) <==> before.to_set().insert(
            last,
        ).contains(step));
    } else {
        lemma_stage_steps_are_earlier(init, stage, at);
        if filters[at].stage == stage {
            assert(before.push(last)[before.len() as int] == step);
        }
    }
}

proof fn lemma_stage_steps_are_earlier(filters: Seq<PoolFilter>, stage: FilterStage, at: int)
    requires
        filters.len() <= at <= usize::MAX,
    ensures
        !stage_steps(filters, stage).contains(PipelineStep::ApplyFilter(at as usize)),
    decreases filters.len(),
{
    if filters.len() > 0 {
        lemma_stage_steps_are_earlier(filters.drop_last(), stage, at);
    }
}

/// The filters of a stage: each step applies a filter of that stage, in the order of the filters,
/// and every filter of the stage is there.
proof fn lemma_stage_steps(filters: Seq<PoolFilter>, stage: FilterStage)
    requires
        filters.len() <= usize::MAX,
    ensures
        ({
            let steps = stage_steps(filters, stage);
            &&& forall|k: int|
                0 <= k < steps.len() ==> (#[trigger] steps[k] matches PipelineStep::ApplyFilter(i)
                    && i < filters.len() && filters[i as int].stage == stage)
            &&& forall|k: int, l: int|
                0 <= k < l < steps.len() ==> (#[trigger] steps[k])->ApplyFilter_0 < (
                #[trigger] steps[l])->ApplyFilter_0
        }),
    decreases filters.len(),
{
    if filters.len() > 0 {
        let init = filters.drop_last();
        lemma_stage_steps(init, stage);
        let before = stage_steps(init, stage);
        assert forall|k: int| 0 <= k < before.len() implies (
        #[trigger] before[k] matches PipelineStep::ApplyFilter(i) && i < init.len()
            && filters[i as int].stage == stage) by {
            assert(init[before[k]->ApplyFilter_0 as int].stage == stage);
        }
    }
}

/// `step` stands at `position`, and nowhere else.
pub open spec fn stands_only_at(
    steps: Seq<PipelineStep>,
    step: PipelineStep,
    position: int,
) -> bool {
    &&& 0 <= position < steps.len()
    &&& steps[position] == step
    &&& forall|k: int| 0 <= k < steps.len() && #[trigger] steps[k] == step ==> k == position
}

/// The pools of a factory are discovered first and read once. Every filter is applied exactly
/// once: before the pools are read if it is a discovery filter, and after that if it is a sync
/// filter; filters of the same stage keep their order. There is no other step.
pub proof fn law_pipeline_applies_each_filter_once(filters: Seq<PoolFilter>) -> (positions: (
    int,
    Seq<int>,
))
    requires
        filters.len() <= usize::MAX,
    ensures
        ({
            let steps = pipeline_steps(filters);
            let (read, applied) = positions;
            &&& steps.len() == filters.len() + 2
            &&& applied.len() == filters.len()
            &&& stands_only_at(steps, PipelineStep::Discover, 0)
            &&& stands_only_at(steps, PipelineStep::Sync, read)
            &&& forall|i: int|
                0 <= i < filters.len() ==> {
                    &&& stands_only_at(
                        steps,
                        PipelineStep::ApplyFilter(i as usize),
                        #[trigger] applied[i],
                    )
                    &&& filters[i].stage is Discovery ==> applied[i] < read
                    &&& filters[i].stage is Sync ==> applied[i] > read
                }
            &&& forall|i: int, j: int|
                0 <= i < j < filters.len() && filters[i].stage == filters[j].stage
                    ==> #[trigger] applied[i] < #[trigger] applied[j]
        }),
{
    let first = stage_steps(filters, FilterStage::Discovery);
    let second = stage_steps(filters, FilterStage::Sync);
    let steps = pipeline_steps(filters);
    let read = 1 + first.len() as int;
    lemma_stage_steps(filters, FilterStage::Discovery);
    lemma_stage_steps(filters, FilterStage::Sync);
    lemma_stage_lengths(filters);
    assert forall|k: int| 0 <= k < first.len() implies steps[1 + k] == #[trigger] first[k] by {}
    assert forall|k: int| 0 <= k < second.len() implies steps[read + 1 + k]
        == #[trigger] second[k] by {}
    assert forall|k: int| 0 <= k < steps.len() implies {
        ||| k == 0 && steps[k] == PipelineStep::Discover
        ||| 1 <= k < read && #[trigger] steps[k] == first[k - 1]
        ||| k == read && steps[k] == PipelineStep::Sync
        ||| read < k && steps[k] == second[k - read - 1]
    } by {}
    let applied = Seq::new(
        filters.len(),
        |i: int|
            if filters[i].stage is Discovery {
                1 + first.index_of(PipelineStep::ApplyFilter(i as usize))
            } else {
                read + 1 + second.index_of(PipelineStep::ApplyFilter(i as usize))
            },
    );
    assert forall|i: int| 0 <= i < filters.len() implies {
        &&& stands_only_at(
            steps,
            PipelineStep::ApplyFilter(i as usize),
            #[trigger] applied[i],
        )
        &&& filters[i].stage is Discovery ==> applied[i] < read
        &&& filters[i].stage is Sync ==> applied[i] > read
    } by {
        let step = PipelineStep::ApplyFilter(i as usize);
        law_each_filter_is_applied_in_its_stage(filters, FilterStage::Discovery, i);
        law_each_filter_is_applied_in_its_stage(filters, FilterStage::Sync, i);
        if filters[i].stage is Discovery {
            let at = first.index_of(step);
            assert(first[at] == step && steps[1 + at] == first[at]);
        } else {
            let at = second.index_of(step);
            assert(second[at] == step && steps[read + 1 + at] == second[at]);
        }
        assert forall|k: int| 0 <= k < steps.len() && #[trigger] steps[k] == step implies k
            == applied[i] by {
            if 1 <= k < read {
                assert(first.contains(first[k - 1]));
            } else if read < k {
                assert(second.contains(second[k - read - 1]));
            }
        }
    }
    assert forall|i: int, j: int|
        0 <= i < j < filters.len() && filters[i].stage == filters[j].stage implies #[trigger] applied[i]
        < #[trigger] applied[j] by {
        assert(stands_only_at(steps, PipelineStep::ApplyFilter(i as usize), applied[i]));
        assert(stands_only_at(steps, PipelineStep::ApplyFilter(j as usize), applied[j]));
    }
    (read, applied)
}

proof fn lemma_stage_lengths(filters: Seq<PoolFilter>)
    ensures
        stage_steps(filters, FilterStage::Discovery).len() + stage_steps(
            filters,
            FilterStage::Sync,
        ).len() == filters.len(),
    decreases filters.len(),
{
    if filters.len() > 0 {
        lemma_stage_lengths(filters.drop_last());
    }
}

/// The log filter lists the discovery event and each pool event of every factory, and each sync
/// event of every listed pool; each signature that it lists is one of these. It is not made for a
/// single block and has no other condition.
pub proof fn law_every_event_is_watched(
    filter: Filter,
    factories: Seq<FactoryView>,
    amms: Seq<AmmView>,
    signature: Seq<u8>,
)
    requires
        watches(filter, factories, amms),
    ensures
        forall|i: int|
            0 <= i < factories.len() ==> filter_signatures(filter).contains(
                (#[trigger] factories[i]).discovery_event.0@,
            ),
        forall|i: int, k: int|
            0 <= i < factories.len() && 0 <= k < factories[i].pool_events.len()
                ==> filter_signatures(filter).contains(
                (#[trigger] factories[i].pool_events[k]).0@,
            ),
        forall|i: int, k: int|
            0 <= i < amms.len() && 0 <= k < amms[i].sync_events.len() ==> filter_signatures(
                filter,
            ).contains((#[trigger] amms[i].sync_events[k]).0@),
        filter_signatures(filter).contains(signature) ==> {
            ||| exists|i: int|
                0 <= i < factories.len() && (#[trigger] factories[i]).discovery_event.0@
                    == signature
            ||| exists|i: int, k: int|
                0 <= i < factories.len() && 0 <= k < factories[i].pool_events.len() && (
                #[trigger] factories[i].pool_events[k]).0@ == signature
            ||| exists|i: int, k: int|
                0 <= i < amms.len() && 0 <= k < amms[i].sync_events.len() && (
                #[trigger] amms[i].sync_events[k]).0@ == signature
        },
        filter_block(filter) is None,
        filter_is_open(filter),
{
    let events = watched_events(factories, amms);
    let listed = filter_signatures(filter);
    assert forall|event: B256| #[trigger] events.contains(event) implies listed.contains(
        event.0@,
    ) by {
        assert(signature_bytes(event) == event.0@);
    }
    assert forall|i: int| 0 <= i < factories.len() implies listed.contains(
        (#[trigger] factories[i]).discovery_event.0@,
    ) by {
        let event = factories[i].discovery_event;
        assert(concerns(factories[i], event));
        assert(events.contains(event));
    }
    assert forall|i: int, k: int|
        0 <= i < factories.len() && 0 <= k < factories[i].pool_events.len() implies listed.contains(
        (#[trigger] factories[i].pool_events[k]).0@,
    ) by {
        let event = factories[i].pool_events[k];
        assert(concerns(factories[i], event));
        assert(events.contains(event));
    }
    assert forall|i: int, k: int|
        0 <= i < amms.len() && 0 <= k < amms[i].sync_events.len() implies listed.contains(
        (#[trigger] amms[i].sync_events[k]).0@,
    ) by {
        let event = amms[i].sync_events[k];
        assert(amms[i].sync_events.contains(event));
        assert(events.contains(event));
    }
    if listed.contains(signature) {
        let event = choose|event: B256|
            events.contains(event) && signature == signature_bytes(event);
        assert(events.contains(event) && signature == event.0@);
        if exists|i: int| 0 <= i < factories.len() && #[trigger] concerns(factories[i], event) {
            let i = choose|i: int|
                0 <= i < factories.len() && #[trigger] concerns(factories[i], event);
            if factories[i].discovery_event != event {
                let k = factories[i].pool_events.index_of(event);
                assert(factories[i].pool_events[k] == event);
            }
        } else {
            let i = choose|i: int|
                0 <= i < amms.len() && #[trigger] amms[i].sync_events.contains(event);
            let k = amms[i].sync_events.index_of(event);
            assert(amms[i].sync_events[k] == event);
        }
    }
}

/// The protocol of a pool is that of its own kind.
pub proof fn law_protocol_is_that_of_the_pool(amm: AmmView)
    ensures
        amm.variant() is UniswapV2 <==> amm.pool is UniswapV2Pool,
        amm.variant() is UniswapV2Variant <==> amm.pool is UniswapV2VariantPool,
        amm.variant() is UniswapV3 <==> amm.pool is UniswapV3Pool,
        amm.variant() is UniswapV3Variant <==> amm.pool is UniswapV3VariantPool,
        amm.variant() is ERC4626 <==> amm.pool is ERC4626Vault,
        amm.variant() is Balancer <==> amm.pool is BalancerPool,
{
}

/// `factories[at]` is the first factory of this protocol.
pub open spec fn is_first_of(factories: Seq<FactoryView>, at: int, variant: Variant) -> bool {
    &&& 0 <= at < factories.len()
    &&& factories[at].variant == variant
    &&& forall|i: int| 0 <= i < at ==> (#[trigger] factories[i]).variant != variant
}

/// Another listed pool goes to the end of what the first factory of its protocol takes over, and
/// nowhere else; if no factory has its protocol, it goes to the end of the pools without factory.
/// Without listed pools there are none anywhere.
pub proof fn law_listed_pool_goes_to_the_first_factory_of_its_protocol(
    amms: Seq<AmmView>,
    amm: AmmView,
    factories: Seq<FactoryView>,
    at: int,
)
    requires
        0 <= at < factories.len(),
    ensures
        extension(Seq::empty(), factories, at).len() == 0,
        unserved(Seq::empty(), factories, factories.len() as int).len() == 0,
        is_first_of(factories, at, amm.variant()) ==> extension(amms.push(amm), factories, at)
            == extension(amms, factories, at).push(amm),
        !is_first_of(factories, at, amm.variant()) ==> extension(amms.push(amm), factories, at)
            == extension(amms, factories, at),
        (forall|i: int|
            0 <= i < factories.len() ==> (#[trigger] factories[i]).variant != amm.variant())
            ==> unserved(amms.push(amm), factories, factories.len() as int) == unserved(
            amms,
            factories,
            factories.len() as int,
        ).push(amm),
        factories[at].variant == amm.variant() ==> unserved(
            amms.push(amm),
            factories,
            factories.len() as int,
        ) == unserved(amms, factories, factories.len() as int),
{
    reveal(Seq::filter);
    let all = factories.len() as int;
    let more = amms.push(amm);
    assert(more.drop_last() =~= amms);
    assert(is_served(factories, at, factories[at].variant) <==> !is_first_of(
        factories,
        at,
        factories[at].variant,
    )) by {
        if !is_first_of(factories, at, factories[at].variant) {
            let i = choose|i: int|
                0 <= i < at && (#[trigger] factories[i]).variant == factories[at].variant;
            assert(factories[i].variant == factories[at].variant);
        }
    }
    if forall|i: int|
        0 <= i < factories.len() ==> (#[trigger] factories[i]).variant != amm.variant() {
        assert(!is_served(factories, all, amm.variant()));
    }
    if factories[at].variant == amm.variant() {
        assert(is_served(factories, all, amm.variant()));
    }
}

/// Sorting by protocol keeps the order of the pools of each protocol.
pub proof fn law_grouping_keeps_the_order_within_a_protocol(amms: Seq<AmmView>, variant: Variant)
    ensures
        grouped(amms).filter(|amm: AmmView| amm.variant() == variant) == amms.filter(
            |amm: AmmView| amm.variant() == variant,
        ),
{
    let same = |amm: AmmView| amm.variant() == variant;
    let v2 = of_variant(amms, Variant::UniswapV2);
    let v2_variant = of_variant(amms, Variant::UniswapV2Variant);
    let v3 = of_variant(amms, Variant::UniswapV3);
    let v3_variant = of_variant(amms, Variant::UniswapV3Variant);
    let vaults = of_variant(amms, Variant::ERC4626);
    let balancer = of_variant(amms, Variant::Balancer);
    Seq::filter_distributes_over_add(v2, v2_variant, same);
    Seq::filter_distributes_over_add(v2 + v2_variant, v3, same);
    Seq::filter_distributes_over_add(v2 + v2_variant + v3, v3_variant, same);
    Seq::filter_distributes_over_add(v2 + v2_variant + v3 + v3_variant, vaults, same);
    Seq::filter_distributes_over_add(v2 + v2_variant + v3 + v3_variant + vaults, balancer, same);
    lemma_group_filtered(amms, Variant::UniswapV2, variant);
    lemma_group_filtered(amms, Variant::UniswapV2Variant, variant);
    lemma_group_filtered(amms, Variant::UniswapV3, variant);
    lemma_group_filtered(amms, Variant::UniswapV3Variant, variant);
    lemma_group_filtered(amms, Variant::ERC4626, variant);
    lemma_group_filtered(amms, Variant::Balancer, variant);
    assert(grouped(amms).filter(same) =~= amms.filter(same));
}

proof fn lemma_group_filtered(amms: Seq<AmmView>, group: Variant, variant: Variant)
    ensures
        of_variant(amms, group).filter(|amm: AmmView| amm.variant() == variant) == (if group
            == variant {
            of_variant(amms, variant)
        } else {
            Seq::empty()
        }),
    decreases amms.len(),
{
    reveal(Seq::filter);
    let same = |amm: AmmView| amm.variant() == variant;
    if amms.len() > 0 {
        let init = amms.drop_last();
        let last = amms.last();
        lemma_group_filtered(init, group, variant);
        if last.variant() == group {
            assert(of_variant(init, group).push(last).drop_last() =~= of_variant(init, group));
        }
    }
    assert(of_variant(amms, group).filter(same) =~= (if group == variant {
        of_variant(amms, variant)
    } else {
        Seq::empty()
    }));
}

/// Of the pools of a list with the same address the last one stays; whatever else was held stays
/// as well.
pub proof fn law_last_pool_of_a_list_stays(
    state: Map<Address, AmmView>,
    amms: Seq<AmmView>,
    at: int,
    address: Address,
)
    ensures
        0 <= at < amms.len() && (forall|i: int|
            at < i < amms.len() ==> (#[trigger] amms[i]).address != amms[at].address)
            ==> with_pools(state, amms).contains_key(amms[at].address) && with_pools(
            state,
            amms,
        )[amms[at].address] == amms[at],
        (forall|i: int| 0 <= i < amms.len() ==> (#[trigger] amms[i]).address != address) ==> {
            &&& with_pools(state, amms).contains_key(address) == state.contains_key(address)
            &&& state.contains_key(address) ==> with_pools(state, amms)[address] == state[address]
        },
    decreases amms.len(),
{
    if amms.len() > 0 {
        let init = amms.drop_last();
        law_last_pool_of_a_list_stays(state, init, at, address);
        if 0 <= at < init.len() && (forall|i: int|
            at < i < amms.len() ==> (#[trigger] amms[i]).address != amms[at].address) {
            assert(amms[amms.len() - 1].address != amms[at].address);
            assert forall|i: int| at < i < init.len() implies (#[trigger] init[i]).address
                != init[at].address by {
                assert(amms[i].address != amms[at].address);
            }
        }
        if forall|i: int| 0 <= i < amms.len() ==> (#[trigger] amms[i]).address != address {
            assert(amms[amms.len() - 1].address != address);
            assert forall|i: int| 0 <= i < init.len() implies (#[trigger] init[i]).address
                != address by {
                assert(amms[i].address != address);
            }
        }
    }
}

/// A space that is set up from listed pools alone holds every one of them that no other listed
/// pool shares its address with, and nothing that is not listed.
pub proof fn law_listed_pools_are_held(amms: Seq<AmmView>, at: int, address: Address)
    ensures
        0 <= at < amms.len() && (forall|i: int|
            0 <= i < amms.len() && (#[trigger] amms[i]).address == amms[at].address ==> amms[i]
                == amms[at]) ==> {
            let state = with_pools(Map::empty(), grouped(amms));
            &&& state.contains_key(amms[at].address)
            &&& state[amms[at].address] == amms[at]
        },
        with_pools(Map::empty(), grouped(amms)).contains_key(address) ==> exists|i: int|
            0 <= i < amms.len() && (#[trigger] amms[i]).address == address && amms[i]
                == with_pools(Map::empty(), grouped(amms))[address],
{
    broadcast use vstd::seq_lib::group_to_multiset_ensures;

    let sorted = grouped(amms);
    let state = with_pools(Map::empty(), sorted);
    law_grouping_keeps_every_pool(amms);
    assert forall|amm: AmmView| sorted.contains(amm) <==> amms.contains(amm) by {
        assert(sorted.to_multiset().count(amm) == amms.to_multiset().count(amm));
    }
    if 0 <= at < amms.len() {
        let own = amms[at].address;
        lemma_with_pools(Map::empty(), sorted, own);
        assert(amms.contains(amms[at]));
        assert(sorted.contains(amms[at]));
        if state.contains_key(own) {
            let k = amms.index_of(state[own]);
            assert(amms.contains(state[own]));
            assert(amms[k].address == own);
        }
    }
    lemma_with_pools(Map::empty(), sorted, address);
    if state.contains_key(address) {
        assert(amms.contains(state[address]));
        let k = amms.index_of(state[address]);
        assert(amms[k] == state[address]);
    }
}

} // verus!
