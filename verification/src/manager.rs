//! A state space together with what it takes to keep it in step with the chain.
use crate::factory::Factory;
use crate::log_filter::{filter_block, filter_is_open, filter_signatures, select_block};
use crate::space::StateSpace;
use alloy::rpc::types::Filter;
use std::marker::PhantomData;
use vstd::prelude::*;

verus! {

/// A state space, the latest block that it has seen, and the logs that it asks for.
pub struct StateSpaceManager<N, P> {
    pub state: StateSpace,
    pub latest_block: u64,
    pub block_filter: Filter,
    pub provider: P,
    pub factories: Vec<Factory>,
    pub phantom: PhantomData<N>,
}

impl<N, P> StateSpaceManager<N, P> {
    /// The filter for the logs of a new block.
    pub fn filter_for_block(&self, block_number: u64) -> (filter: Filter)
        ensures
            filter_block(filter) == Some(block_number),
            filter_signatures(filter) == filter_signatures(self.block_filter),
            filter_is_open(filter) == filter_is_open(self.block_filter),
    {
        select_block(&self.block_filter, block_number)
    }

    /// Notes that the logs of a block have been applied.
    pub fn block_synced(&mut self, block_number: u64)
        ensures
            *final(self) == (StateSpaceManager { latest_block: block_number, ..*old(self) }),
    {
        self.latest_block = block_number;
    }
}

} // verus!
