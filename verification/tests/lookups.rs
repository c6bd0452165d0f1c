use state_space::amm::{
    BalancerPool, ERC4626Vault, Pool, Token, UniswapV2Pool, UniswapV3Pool, Variant, AMM,
};
use state_space::primitives::Address;
use state_space::space::{StateSpace, CACHE_SIZE};

fn address(n: u8) -> Address {
    Address([n; 20])
}

fn text(n: u8) -> String {
    format!("0x{}", format!("{:02x}", n).repeat(20))
}

fn token(n: u8) -> Token {
    Token { address: address(n), decimals: 18 }
}

fn amm(at: u8, pool: Pool) -> AMM {
    AMM { address: address(at), sync_events: vec![], pool }
}

fn v2(a: u8, b: u8, sufficient_reserves: bool) -> UniswapV2Pool {
    UniswapV2Pool {
        token_a: token(a),
        token_b: token(b),
        reserve_0: 1_000,
        reserve_1: 2_000,
        sufficient_reserves,
    }
}

fn v3(a: u8, b: u8, liquidity: u128, ticks: Vec<i32>) -> UniswapV3Pool {
    UniswapV3Pool {
        token_a: token(a),
        token_b: token(b),
        liquidity,
        ticks,
        factory_address: address(0xfa),
    }
}

fn space_of(amms: Vec<AMM>) -> StateSpace {
    let mut space = StateSpace::default();
    for amm in amms {
        let _ = space.state.insert(amm.address, amm);
    }
    space.rebuild_indexes();
    space
}

#[test]
fn empty_space_finds_nothing() {
    let space = StateSpace::default();
    assert!(space.get(&address(1)).is_none());
    assert!(space.get_pools_by_token(&text(1)).is_empty());
    assert!(space.get_pools_by_token_pair(&text(1), &text(2)).is_empty());
    assert!(space.get_connected_tokens(&text(1)).is_empty());
    assert_eq!(space.latest_block, 0);
    assert_eq!(CACHE_SIZE, 30);
}

#[test]
fn pool_is_found_by_each_of_its_tokens() {
    let space = space_of(vec![amm(0x10, Pool::UniswapV2Pool(v2(1, 2, true)))]);
    assert_eq!(space.get_pools_by_token(&text(1)), vec![address(0x10)]);
    assert_eq!(space.get_pools_by_token(&text(2)), vec![address(0x10)]);
    assert!(space.get_pools_by_token(&text(3)).is_empty());
}

#[test]
fn case_of_the_query_does_not_matter() {
    let space = space_of(vec![amm(0x10, Pool::UniswapV2Pool(v2(0xab, 0xcd, true)))]);
    let upper = text(0xab).to_uppercase();
    assert!(upper.starts_with("0XABAB"));
    assert_eq!(space.get_pools_by_token(&upper), vec![address(0x10)]);
    assert_eq!(
        space.get_pools_by_token_pair(&upper, &text(0xcd).to_uppercase()),
        vec![address(0x10)]
    );
    assert_eq!(space.get_connected_tokens(&upper), vec![text(0xcd)]);
}

#[test]
fn query_needs_the_prefix() {
    let space = space_of(vec![amm(0x10, Pool::UniswapV2Pool(v2(0xab, 0xcd, true)))]);
    assert!(space.get_pools_by_token(&text(0xab)[2..]).is_empty());
    assert!(space.get_pools_by_token("").is_empty());
    assert!(space.get_pools_by_token("\u{130}\u{df}").is_empty());
}

#[test]
fn keys_are_the_addresses_digit_by_digit() {
    let mut bytes = [0u8; 20];
    for (i, byte) in bytes.iter_mut().enumerate() {
        *byte = (i as u8) * 13 + 7;
    }
    let odd = Address(bytes);
    let vault = ERC4626Vault { vault_token: odd, asset_token: address(9) };
    let space = space_of(vec![amm(0x10, Pool::ERC4626Vault(vault))]);
    assert_eq!(
        space.get_connected_tokens(&text(9)),
        vec!["0x0714212e3b4855626f7c8996a3b0bdcad7e4f1fe".to_string()]
    );
}

#[test]
fn pair_lookup_is_symmetric() {
    let space = space_of(vec![
        amm(0x10, Pool::UniswapV2Pool(v2(1, 2, true))),
        amm(0x11, Pool::UniswapV3Pool(v3(2, 1, 5, vec![0]))),
        amm(0x12, Pool::UniswapV3Pool(v3(2, 3, 5, vec![0]))),
    ]);
    let there = space.get_pools_by_token_pair(&text(1), &text(2));
    let back = space.get_pools_by_token_pair(&text(2), &text(1));
    assert_eq!(there, vec![address(0x10), address(0x11)]);
    assert_eq!(there, back);
    assert_eq!(space.get_pools_by_token_pair(&text(3), &text(2)), vec![address(0x12)]);
    assert!(space.get_pools_by_token_pair(&text(1), &text(3)).is_empty());
}

#[test]
fn pool_of_many_tokens_is_found_for_each_of_its_pairs() {
    let tokens = vec![address(1), address(2), address(3)];
    let space = space_of(vec![
        amm(0x10, Pool::BalancerPool(BalancerPool { tokens })),
        amm(0x11, Pool::UniswapV2Pool(v2(1, 2, true))),
    ]);
    assert_eq!(space.get_pools_by_token(&text(3)), vec![address(0x10)]);
    for (a, b) in [(1, 3), (3, 1), (2, 3), (3, 2)] {
        assert_eq!(space.get_pools_by_token_pair(&text(a), &text(b)), vec![address(0x10)]);
    }
    assert_eq!(
        space.get_pools_by_token_pair(&text(2), &text(1)),
        vec![address(0x10), address(0x11)]
    );
    assert!(space.get_pools_by_token_pair(&text(3), &text(3)).is_empty());
    assert_eq!(space.token_pair_to_pools.len(), 6);
    assert_eq!(space.get_connected_tokens(&text(3)), vec![text(1), text(2)]);
}

#[test]
fn token_that_occurs_twice_pairs_with_itself() {
    let tokens = vec![address(1), address(2), address(1)];
    let space = space_of(vec![amm(0x10, Pool::BalancerPool(BalancerPool { tokens }))]);
    assert_eq!(space.get_pools_by_token_pair(&text(1), &text(1)), vec![address(0x10)]);
    assert!(space.get_pools_by_token_pair(&text(2), &text(2)).is_empty());
    assert_eq!(space.get_connected_tokens(&text(1)), vec![text(2)]);
}

#[test]
fn connected_tokens_have_a_pool_for_their_pair() {
    let tokens = vec![address(1), address(2), address(3), address(4)];
    let space = space_of(vec![
        amm(0x10, Pool::BalancerPool(BalancerPool { tokens })),
        amm(0x11, Pool::UniswapV2Pool(v2(4, 5, true))),
    ]);
    for a in 1..7 {
        for b in 1..7 {
            let connected = space.get_connected_tokens(&text(a)).contains(&text(b));
            let found = !space.get_pools_by_token_pair(&text(a), &text(b)).is_empty();
            assert_eq!(connected, found);
        }
    }
}

#[test]
fn texts_with_the_same_lower_case_find_the_same() {
    let space = space_of(vec![amm(0x10, Pool::UniswapV2Pool(v2(0xab, 0xcd, true)))]);
    let kelvin = "\u{212a}";
    assert_eq!(kelvin.to_lowercase(), "k");
    assert_eq!(space.get_pools_by_token(kelvin), space.get_pools_by_token("K"));
    let mixed = text(0xab).replace("abab", "aBAb");
    assert_eq!(space.get_pools_by_token(&mixed), space.get_pools_by_token(&text(0xab)));
    assert_eq!(space.get_connected_tokens(&mixed), vec![text(0xcd)]);
}

#[test]
fn pool_of_one_token_has_no_pair() {
    let tokens = vec![address(1)];
    let space = space_of(vec![amm(0x10, Pool::BalancerPool(BalancerPool { tokens }))]);
    assert_eq!(space.get_pools_by_token(&text(1)), vec![address(0x10)]);
    assert!(space.get_pools_by_token_pair(&text(1), &text(1)).is_empty());
    assert!(space.get_connected_tokens(&text(1)).is_empty());
    assert_eq!(space.token_pair_to_pools.len(), 0);
}

#[test]
fn poor_pools_are_held_but_not_found() {
    let space = space_of(vec![
        amm(0x10, Pool::UniswapV2Pool(v2(1, 2, false))),
        amm(0x11, Pool::UniswapV2VariantPool(v2(1, 2, false))),
        amm(0x12, Pool::UniswapV3Pool(v3(1, 2, 0, vec![0]))),
        amm(0x13, Pool::UniswapV3VariantPool(v3(1, 2, 0, vec![0]))),
        amm(0x14, Pool::UniswapV2VariantPool(v2(1, 2, true))),
        amm(0x15, Pool::UniswapV3VariantPool(v3(1, 2, 1, vec![]))),
    ]);
    assert_eq!(space.state.len(), 6);
    assert!(space.get(&address(0x10)).is_some());
    assert_eq!(space.get_pools_by_token(&text(1)), vec![address(0x14), address(0x15)]);
    assert_eq!(
        space.get_pools_by_token_pair(&text(1), &text(2)),
        vec![address(0x14), address(0x15)]
    );
}

#[test]
fn tokens_that_share_a_pool_are_connected() {
    let vault = ERC4626Vault { vault_token: address(4), asset_token: address(1) };
    let space = space_of(vec![
        amm(0x10, Pool::UniswapV2Pool(v2(1, 2, true))),
        amm(0x11, Pool::UniswapV2Pool(v2(3, 1, true))),
        amm(0x12, Pool::ERC4626Vault(vault)),
        amm(0x13, Pool::UniswapV2Pool(v2(2, 3, true))),
    ]);
    assert_eq!(space.get_connected_tokens(&text(1)), vec![text(2), text(3), text(4)]);
    assert_eq!(space.get_connected_tokens(&text(4)), vec![text(1)]);
    assert_eq!(space.get_connected_tokens(&text(2)), vec![text(1), text(3)]);
}

#[test]
fn indexed_pool_that_is_gone_connects_nothing() {
    let mut space = space_of(vec![amm(0x10, Pool::UniswapV2Pool(v2(1, 2, true)))]);
    let gone = space.state.remove(&address(0x10));
    assert!(gone.is_some());
    assert_eq!(space.get_pools_by_token(&text(1)), vec![address(0x10)]);
    assert!(space.get_connected_tokens(&text(1)).is_empty());
    space.rebuild_indexes();
    assert!(space.get_pools_by_token(&text(1)).is_empty());
    assert_eq!(space.token_to_pools.len(), 0);
}

#[test]
fn change_in_place_is_indexed_on_rebuild() {
    let mut space = space_of(vec![amm(0x10, Pool::UniswapV3Pool(v3(1, 2, 0, vec![])))]);
    assert!(space.get_pools_by_token(&text(1)).is_empty());
    match space.get_mut(&address(0x10)) {
        Some(held) => held.pool = Pool::UniswapV3Pool(v3(1, 2, 8, vec![-60, 60])),
        None => panic!("the pool is held"),
    }
    assert!(space.get_mut(&address(0x11)).is_none());
    assert!(space.get_pools_by_token(&text(1)).is_empty());
    space.rebuild_indexes();
    assert_eq!(space.get_pools_by_token(&text(1)), vec![address(0x10)]);
    match space.get(&address(0x10)) {
        Some(held) => assert!(matches!(&held.pool, Pool::UniswapV3Pool(p) if p.liquidity == 8)),
        None => panic!("the pool is held"),
    }
}

#[test]
fn pool_that_trades_a_token_with_itself() {
    let space = space_of(vec![amm(0x10, Pool::UniswapV2Pool(v2(1, 1, true)))]);
    assert_eq!(space.get_pools_by_token(&text(1)), vec![address(0x10)]);
    assert_eq!(space.get_pools_by_token_pair(&text(1), &text(1)), vec![address(0x10)]);
    assert!(space.get_connected_tokens(&text(1)).is_empty());
}

#[test]
fn protocol_of_a_pool() {
    let vault = ERC4626Vault { vault_token: address(4), asset_token: address(1) };
    let balancer = BalancerPool { tokens: vec![] };
    assert_eq!(amm(1, Pool::UniswapV2Pool(v2(1, 2, true))).variant(), Variant::UniswapV2);
    assert_eq!(
        amm(1, Pool::UniswapV2VariantPool(v2(1, 2, true))).variant(),
        Variant::UniswapV2Variant
    );
    assert_eq!(amm(1, Pool::UniswapV3Pool(v3(1, 2, 1, vec![]))).variant(), Variant::UniswapV3);
    assert_eq!(
        amm(1, Pool::UniswapV3VariantPool(v3(1, 2, 1, vec![]))).variant(),
        Variant::UniswapV3Variant
    );
    assert_eq!(amm(1, Pool::ERC4626Vault(vault)).variant(), Variant::ERC4626);
    assert_eq!(amm(1, Pool::BalancerPool(balancer)).variant(), Variant::Balancer);
}
