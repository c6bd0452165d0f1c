//! The pools that the state space holds.
use crate::primitives::{Address, B256};
use vstd::prelude::*;

verus! {

/// A token of a pool.
#[derive(Clone, Copy, Debug, PartialEq, Eq)]
pub struct Token {
    pub address: Address,
    pub decimals: u8,
}

/// A constant product pool.
#[derive(Clone, Copy, Debug, PartialEq, Eq)]
pub struct UniswapV2Pool {
    pub token_a: Token,
    pub token_b: Token,
    pub reserve_0: u128,
    pub reserve_1: u128,
    /// Whether both reserves, in whole tokens, exceed the minimum that a pool must hold to be
    /// worth routing through. It is measured in floating point when the reserves are read.
    pub sufficient_reserves: bool,
}

/// A concentrated liquidity pool.
#[derive(Debug)]
pub struct UniswapV3Pool {
    pub token_a: Token,
    pub token_b: Token,
    pub liquidity: u128,
    /// The initialised ticks.
    pub ticks: Vec<i32>,
    pub factory_address: Address,
}

/// A tokenised vault.
#[derive(Clone, Copy, Debug, PartialEq, Eq)]
pub struct ERC4626Vault {
    pub vault_token: Address,
    pub asset_token: Address,
}

/// A pool of any number of tokens.
#[derive(Debug)]
pub struct BalancerPool {
    pub tokens: Vec<Address>,
}

/// A pool of one of the supported protocols.
#[derive(Debug)]
pub enum Pool {
    UniswapV2Pool(UniswapV2Pool),
    UniswapV2VariantPool(UniswapV2Pool),
    UniswapV3Pool(UniswapV3Pool),
    UniswapV3VariantPool(UniswapV3Pool),
    ERC4626Vault(ERC4626Vault),
    BalancerPool(BalancerPool),
}

/// The protocol of a pool.
#[derive(Clone, Copy, Debug, PartialEq, Eq, Structural)]
pub enum Variant {
    UniswapV2,
    UniswapV2Variant,
    UniswapV3,
    UniswapV3Variant,
    ERC4626,
    Balancer,
}

/// An automated market maker: a pool at an address, with the signatures of the events that
/// change it.
#[derive(Debug)]
pub struct AMM {
    pub address: Address,
    pub sync_events: Vec<B256>,
    pub pool: Pool,
}

/// What a [`UniswapV3Pool`] stands for.
pub struct UniswapV3PoolView {
    pub token_a: Token,
    pub token_b: Token,
    pub liquidity: u128,
    pub ticks: Seq<i32>,
    pub factory_address: Address,
}

/// What a [`Pool`] stands for.
pub enum PoolView {
    UniswapV2Pool(UniswapV2Pool),
    UniswapV2VariantPool(UniswapV2Pool),
    UniswapV3Pool(UniswapV3PoolView),
    UniswapV3VariantPool(UniswapV3PoolView),
    ERC4626Vault(ERC4626Vault),
    BalancerPool(Seq<Address>),
}

/// What an [`AMM`] stands for.
pub struct AmmView {
    pub address: Address,
    pub sync_events: Seq<B256>,
    pub pool: PoolView,
}

impl View for UniswapV3Pool {
    type V = UniswapV3PoolView;

    open spec fn view(&self) -> UniswapV3PoolView {
        UniswapV3PoolView {
            token_a: self.token_a,
            token_b: self.token_b,
            liquidity: self.liquidity,
            ticks: self.ticks@,
            factory_address: self.factory_address,
        }
    }
}

impl View for Pool {
    type V = PoolView;

    open spec fn view(&self) -> PoolView {
        match *self {
            Pool::UniswapV2Pool(pool) => PoolView::UniswapV2Pool(pool),
            Pool::UniswapV2VariantPool(pool) => PoolView::UniswapV2VariantPool(pool),
            Pool::UniswapV3Pool(pool) => PoolView::UniswapV3Pool(pool@),
            Pool::UniswapV3VariantPool(pool) => PoolView::UniswapV3VariantPool(pool@),
            Pool::ERC4626Vault(vault) => PoolView::ERC4626Vault(vault),
            Pool::BalancerPool(pool) => PoolView::BalancerPool(pool.tokens@),
        }
    }
}

impl View for AMM {
    type V = AmmView;

    open spec fn view(&self) -> AmmView {
        AmmView { address: self.address, sync_events: self.sync_events@, pool: self.pool@ }
    }
}

impl AmmView {
    /// The protocol of the pool.
    pub open spec fn variant(self) -> Variant {
        match self.pool {
            PoolView::UniswapV2Pool(_) => Variant::UniswapV2,
            PoolView::UniswapV2VariantPool(_) => Variant::UniswapV2Variant,
            PoolView::UniswapV3Pool(_) => Variant::UniswapV3,
            PoolView::UniswapV3VariantPool(_) => Variant::UniswapV3Variant,
            PoolView::ERC4626Vault(_) => Variant::ERC4626,
            PoolView::BalancerPool(_) => Variant::Balancer,
        }
    }

    /// The tokens that the pool trades, in the pool's own order.
    pub open spec fn tokens(self) -> Seq<Address> {
        match self.pool {
            PoolView::UniswapV2Pool(pool) => seq![pool.token_a.address, pool.token_b.address],
            PoolView::UniswapV2VariantPool(pool) => seq![
                pool.token_a.address,
                pool.token_b.address,
            ],
            PoolView::UniswapV3Pool(pool) => seq![pool.token_a.address, pool.token_b.address],
            PoolView::UniswapV3VariantPool(pool) => seq![
                pool.token_a.address,
                pool.token_b.address,
            ],
            PoolView::ERC4626Vault(vault) => seq![vault.vault_token, vault.asset_token],
            PoolView::BalancerPool(tokens) => tokens,
        }
    }

    /// Whether the pool holds enough to be routed through: some active liquidity, or sufficient
    /// reserves. Vaults and pools of many tokens always do.
    pub open spec fn meets_minimum_requirements(self) -> bool {
        match self.pool {
            PoolView::UniswapV3Pool(pool) => pool.liquidity != 0,
            PoolView::UniswapV3VariantPool(pool) => pool.liquidity != 0,
            PoolView::UniswapV2Pool(pool) => pool.sufficient_reserves,
            PoolView::UniswapV2VariantPool(pool) => pool.sufficient_reserves,
            _ => true,
        }
    }

    /// A concentrated liquidity pool with liquidity but no tick has lost track of the chain.
    pub open spec fn has_lost_ticks(self) -> bool {
        match self.pool {
            PoolView::UniswapV3Pool(pool) => pool.liquidity != 0 && pool.ticks.len() == 0,
            PoolView::UniswapV3VariantPool(pool) => pool.liquidity != 0 && pool.ticks.len() == 0,
            _ => false,
        }
    }
}

/// The views of several pools.
pub open spec fn amm_views(amms: Seq<AMM>) -> Seq<AmmView> {
    amms.map_values(|amm: AMM| amm@)
}

fn copy_ticks(ticks: &Vec<i32>) -> (copy: Vec<i32>)
    ensures
        copy@ == ticks@,
{
    let copy = ticks.clone();
    assert(copy@ =~= ticks@);
    copy
}

fn copy_addresses(addresses: &Vec<Address>) -> (copy: Vec<Address>)
    ensures
        copy@ == addresses@,
{
    let mut copy: Vec<Address> = Vec::new();
    let mut i: usize = 0;
    while i < addresses.len()
        invariant
            i <= addresses@.len(),
            copy@ == addresses@.take(i as int),
        decreases addresses@.len() - i,
    {
        copy.push(addresses[i]);
        assert(addresses@.take(i + 1) =~= addresses@.take(i as int).push(addresses@[i as int]));
        i = i + 1;
    }
    assert(addresses@.take(i as int) =~= addresses@);
    copy
}

/// A copy of a list of event signatures.
pub(crate) fn copy_events(events: &Vec<B256>) -> (copy: Vec<B256>)
    ensures
        copy@ == events@,
{
    let mut copy: Vec<B256> = Vec::new();
    let mut i: usize = 0;
    while i < events.len()
        invariant
            i <= events@.len(),
            copy@ == events@.take(i as int),
        decreases events@.len() - i,
    {
        copy.push(events[i]);
        assert(events@.take(i + 1) =~= events@.take(i as int).push(events@[i as int]));
        i = i + 1;
    }
    assert(events@.take(i as int) =~= events@);
    copy
}

impl Clone for UniswapV3Pool {
    fn clone(&self) -> (copy: UniswapV3Pool)
        ensures
            copy@ == self@,
    {
        UniswapV3Pool {
            token_a: self.token_a,
            token_b: self.token_b,
            liquidity: self.liquidity,
            ticks: copy_ticks(&self.ticks),
            factory_address: self.factory_address,
        }
    }
}

impl Clone for Pool {
    fn clone(&self) -> (copy: Pool)
        ensures
            copy@ == self@,
    {
        match self {
            Pool::UniswapV2Pool(pool) => Pool::UniswapV2Pool(*pool),
            Pool::UniswapV2VariantPool(pool) => Pool::UniswapV2VariantPool(*pool),
            Pool::UniswapV3Pool(pool) => Pool::UniswapV3Pool(pool.clone()),
            Pool::UniswapV3VariantPool(pool) => Pool::UniswapV3VariantPool(pool.clone()),
            Pool::ERC4626Vault(vault) => Pool::ERC4626Vault(*vault),
            Pool::BalancerPool(pool) => Pool::BalancerPool(
                BalancerPool { tokens: copy_addresses(&pool.tokens) },
            ),
        }
    }
}

impl Clone for AMM {
    fn clone(&self) -> (copy: AMM)
        ensures
            copy@ == self@,
    {
        AMM {
            address: self.address,
            sync_events: copy_events(&self.sync_events),
            pool: self.pool.clone(),
        }
    }
}

impl AMM {
    /// The address of the pool.
    pub fn address(&self) -> (address: Address)
        ensures
            address == self@.address,
    {
        self.address
    }

    /// The protocol of the pool.
    pub fn variant(&self) -> (variant: Variant)
        ensures
            variant == self@.variant(),
    {
        match &self.pool {
            Pool::UniswapV2Pool(_) => Variant::UniswapV2,
            Pool::UniswapV2VariantPool(_) => Variant::UniswapV2Variant,
            Pool::UniswapV3Pool(_) => Variant::UniswapV3,
            Pool::UniswapV3VariantPool(_) => Variant::UniswapV3Variant,
            Pool::ERC4626Vault(_) => Variant::ERC4626,
            Pool::BalancerPool(_) => Variant::Balancer,
        }
    }

    /// Whether the pool reports liquidity but knows no tick.
    pub fn has_lost_ticks(&self) -> (lost: bool)
        ensures
            lost == self@.has_lost_ticks(),
    {
        match &self.pool {
            Pool::UniswapV3Pool(pool) => pool.liquidity != 0 && pool.ticks.len() == 0,
            Pool::UniswapV3VariantPool(pool) => pool.liquidity != 0 && pool.ticks.len() == 0,
            _ => false,
        }
    }
}

} // verus!
