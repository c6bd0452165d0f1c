use alloy::primitives::FixedBytes;
use alloy::rpc::types::Filter;
use state_space::amm::{
    BalancerPool, ERC4626Vault, Pool, Token, UniswapV2Pool, UniswapV3Pool, Variant, AMM,
};
use state_space::builder::{PipelineStep, StateSpaceBuilder};
use state_space::factory::Factory;
use state_space::filters::{FilterStage, PoolFilter};
use state_space::manager::StateSpaceManager;
use state_space::primitives::{Address, B256};

fn address(n: u8) -> Address {
    Address([n; 20])
}

fn text(n: u8) -> String {
    format!("0x{}", format!("{:02x}", n).repeat(20))
}

fn token(n: u8) -> Token {
    Token { address: address(n), decimals: 18 }
}

fn event(n: u8) -> B256 {
    B256([n; 32])
}

fn v2(at: u8, reserve: u128) -> AMM {
    AMM {
        address: address(at),
        sync_events: vec![event(0xe2)],
        pool: Pool::UniswapV2Pool(UniswapV2Pool {
            token_a: token(1),
            token_b: token(2),
            reserve_0: reserve,
            reserve_1: reserve,
            sufficient_reserves: true,
        }),
    }
}

fn v3(at: u8) -> AMM {
    AMM {
        address: address(at),
        sync_events: vec![event(0xe3), event(0xe4)],
        pool: Pool::UniswapV3Pool(UniswapV3Pool {
            token_a: token(1),
            token_b: token(3),
            liquidity: 1,
            ticks: vec![0],
            factory_address: address(0xfa),
        }),
    }
}

fn vault(at: u8) -> AMM {
    let pool = ERC4626Vault { vault_token: address(5), asset_token: address(6) };
    AMM { address: address(at), sync_events: vec![], pool: Pool::ERC4626Vault(pool) }
}

fn balancer(at: u8) -> AMM {
    let pool = BalancerPool { tokens: vec![address(7), address(8)] };
    AMM { address: address(at), sync_events: vec![], pool: Pool::BalancerPool(pool) }
}

fn factory(at: u8, variant: Variant) -> Factory {
    Factory {
        address: address(at),
        variant,
        discovery_event: event(at),
        pool_events: vec![event(0xe2), event(0xe5)],
    }
}

fn addresses(amms: &[AMM]) -> Vec<Address> {
    amms.iter().map(|amm| amm.address).collect()
}

fn no_sync(builder: StateSpaceBuilder<(), u8>) -> StateSpaceManager<(), u8> {
    match builder.no_sync() {
        Ok(manager) => manager,
        Err(_) => panic!("nothing can fail"),
    }
}

fn listed(filter: &Filter) -> Vec<u8> {
    let mut firsts: Vec<u8> = filter.topics[0].iter().map(|topic| topic[0]).collect();
    firsts.sort();
    firsts
}

#[test]
fn new_builder_is_empty() {
    let builder: StateSpaceBuilder<(), u8> = StateSpaceBuilder::new(42);
    assert_eq!(builder.provider, 42);
    assert_eq!(builder.latest_block, 0);
    assert!(builder.factories.is_empty() && builder.amms.is_empty());
    assert!(builder.filters.is_empty());
}

#[test]
fn builder_keeps_what_it_is_given() {
    let filter = PoolFilter { id: 3, stage: FilterStage::Sync };
    let builder: StateSpaceBuilder<(), u8> = StateSpaceBuilder::new(42)
        .block(17)
        .with_factories(vec![factory(0xf2, Variant::UniswapV2)])
        .with_amms(vec![v2(0x10, 1)])
        .with_filters(vec![filter]);
    assert_eq!(builder.provider, 42);
    assert_eq!(builder.latest_block, 17);
    assert_eq!(builder.factories.len(), 1);
    assert_eq!(addresses(&builder.amms), vec![address(0x10)]);
    assert_eq!(builder.filters, vec![filter]);
    assert_eq!(filter.stage(), FilterStage::Sync);
}

#[test]
fn default_builder_is_like_a_new_one() {
    let builder: StateSpaceBuilder<(), u8> = StateSpaceBuilder::default();
    assert_eq!(
        format!("{:?}", builder),
        format!("{:?}", StateSpaceBuilder::<(), u8>::new(0))
    );
}

#[test]
fn filter_lists_every_watched_event_once() {
    let manager = no_sync(
        StateSpaceBuilder::new(0)
            .with_factories(vec![factory(0xf2, Variant::UniswapV2)])
            .with_amms(vec![v2(0x10, 1), v3(0x11)]),
    );
    assert_eq!(listed(&manager.block_filter), vec![0xe2, 0xe3, 0xe4, 0xe5, 0xf2]);
    assert!(manager.block_filter.topics[0].contains(&FixedBytes::new([0xe5; 32])));
    assert!(manager.block_filter.topics[1].is_empty());
    assert!(manager.block_filter.address.is_empty());
    assert_eq!(manager.block_filter.get_from_block(), None);
    assert_eq!(manager.block_filter.get_to_block(), None);
}

#[test]
fn filter_without_events_lists_none() {
    let manager = no_sync(StateSpaceBuilder::new(0));
    assert_eq!(manager.block_filter, Filter::new());
}

#[test]
fn filter_for_a_block_selects_that_block() {
    let manager = no_sync(StateSpaceBuilder::new(0).with_amms(vec![v2(0x10, 1)]));
    let filter = manager.filter_for_block(1234);
    assert_eq!(filter.get_from_block(), Some(1234));
    assert_eq!(filter.get_to_block(), Some(1234));
    assert_eq!(listed(&filter), vec![0xe2]);
    assert_eq!(filter, manager.block_filter.clone().select(1234u64));
    let next = manager.filter_for_block(1235);
    assert_eq!(next.get_from_block(), Some(1235));
}

#[test]
fn synced_block_becomes_the_latest() {
    let mut manager = no_sync(StateSpaceBuilder::new(0).block(8));
    assert_eq!(manager.latest_block, 8);
    manager.block_synced(1234);
    assert_eq!(manager.latest_block, 1234);
    assert_eq!(manager.state.latest_block, 0);
}

#[test]
fn space_without_sync_holds_the_pools_unindexed() {
    let manager = no_sync(
        StateSpaceBuilder::new(7)
            .with_factories(vec![factory(0xf2, Variant::UniswapV2)])
            .with_amms(vec![v2(0x10, 1), v3(0x11), v2(0x10, 2)]),
    );
    assert_eq!(manager.provider, 7);
    assert_eq!(manager.factories.len(), 1);
    assert_eq!(manager.state.state.len(), 2);
    assert_eq!(
        format!("{:?}", manager.state.get(&address(0x10))),
        format!("{:?}", Some(v2(0x10, 2)))
    );
    assert!(manager.state.get_pools_by_token(&text(1)).is_empty());
}

#[test]
fn first_factory_of_a_protocol_takes_its_pools_over() {
    let builder: StateSpaceBuilder<(), u8> = StateSpaceBuilder::new(0)
        .with_factories(vec![
            factory(0xf3, Variant::UniswapV3),
            factory(0xf2, Variant::UniswapV2),
            factory(0xf4, Variant::UniswapV2),
        ])
        .with_amms(vec![balancer(0x15), v2(0x10, 1), vault(0x14), v3(0x11), v2(0x12, 1)]);
    let sync = builder.sync();
    assert_eq!(addresses(&sync.extensions[0]), vec![address(0x11)]);
    assert_eq!(addresses(&sync.extensions[1]), vec![address(0x10), address(0x12)]);
    assert!(sync.extensions[2].is_empty());
    assert_eq!(addresses(&sync.remaining), vec![address(0x14), address(0x15)]);
}

#[test]
fn filters_are_applied_in_their_stages() {
    let filter = |id: u64, stage: FilterStage| PoolFilter { id, stage };
    let builder: StateSpaceBuilder<(), u8> = StateSpaceBuilder::new(0).with_filters(vec![
        filter(9, FilterStage::Sync),
        filter(8, FilterStage::Discovery),
        filter(7, FilterStage::Sync),
    ]);
    assert_eq!(
        builder.sync().pipeline(),
        vec![
            PipelineStep::Discover,
            PipelineStep::ApplyFilter(1),
            PipelineStep::Sync,
            PipelineStep::ApplyFilter(0),
            PipelineStep::ApplyFilter(2),
        ]
    );
    let bare: StateSpaceBuilder<(), u8> = StateSpaceBuilder::new(0);
    assert_eq!(bare.sync().pipeline(), vec![PipelineStep::Discover, PipelineStep::Sync]);
}

#[test]
fn set_up_from_the_chain() {
    let builder: StateSpaceBuilder<(), u8> = StateSpaceBuilder::new(5)
        .block(99)
        .with_factories(vec![factory(0xf2, Variant::UniswapV2)])
        .with_amms(vec![v2(0x10, 1), vault(0x14)]);
    let mut sync = builder.sync();
    let pools = sync.pools_discovered(0, vec![v2(0x12, 1)]);
    assert_eq!(addresses(&pools), vec![address(0x12), address(0x10)]);
    assert!(sync.extensions[0].is_empty());
    sync.factory_synced(pools);
    match sync.next_remaining() {
        Some(amm) => {
            let at = amm.address();
            assert_eq!(at, address(0x14));
            sync.remaining_initialized(at, amm);
        }
        None => panic!("the vault has no factory"),
    }
    assert!(sync.next_remaining().is_none());
    let manager = sync.finish();
    assert_eq!(manager.latest_block, 99);
    assert_eq!(manager.provider, 5);
    assert_eq!(manager.state.state.len(), 3);
    assert_eq!(
        manager.state.get_pools_by_token(&text(1)),
        vec![address(0x10), address(0x12)]
    );
    assert_eq!(manager.state.get_pools_by_token(&text(5)), vec![address(0x14)]);
    assert_eq!(listed(&manager.block_filter), vec![0xe2, 0xe5, 0xf2]);
}

#[test]
fn order_of_the_factories_does_not_matter() {
    let begin = || {
        StateSpaceBuilder::<(), u8>::new(0)
            .with_factories(vec![
                factory(0xf2, Variant::UniswapV2),
                factory(0xf3, Variant::UniswapV3),
            ])
            .sync()
    };
    let mut one = begin();
    one.factory_synced(vec![v2(0x10, 1), v2(0x12, 1)]);
    one.factory_synced(vec![v3(0x11)]);
    one.remaining_initialized(address(0x14), vault(0x14));
    let mut other = begin();
    other.factory_synced(vec![v3(0x11)]);
    other.factory_synced(vec![v2(0x10, 1), v2(0x12, 1)]);
    other.remaining_initialized(address(0x14), vault(0x14));
    let (one, other) = (one.finish(), other.finish());
    assert_eq!(one.state.state.len(), 4);
    assert_eq!(format!("{:?}", one.state), format!("{:?}", other.state));
}
