//! What can go wrong while the state space follows the chain.
use vstd::prelude::*;

verus! {

/// An error of the concentrated liquidity pools.
#[derive(Clone, Copy, Debug, PartialEq, Eq)]
pub enum UniswapV3Error {
    LiquidityUnderflow,
}

/// An error of a pool.
#[derive(Debug, PartialEq, Eq)]
pub enum AMMError {
    UniswapV3Error(UniswapV3Error),
    /// Any other failure, as the pool describes it.
    Other(String),
}

/// An error of the state space.
#[derive(Debug, PartialEq, Eq)]
pub enum StateSpaceError {
    MissingBlockNumber,
    AMMError(AMMError),
}

} // verus!
