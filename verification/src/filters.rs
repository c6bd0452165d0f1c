//! The filters that pools pass before they are held.
use vstd::prelude::*;

verus! {

/// When a filter is applied.
#[derive(Clone, Copy, Debug, PartialEq, Eq, Structural)]
pub enum FilterStage {
    /// To the pools that were discovered, before their state is read.
    Discovery,
    /// To the pools whose state has been read.
    Sync,
}

/// A filter, under the number by which whoever applies it knows it.
#[derive(Clone, Copy, Debug, PartialEq, Eq)]
pub struct PoolFilter {
    pub id: u64,
    pub stage: FilterStage,
}

impl PoolFilter {
    /// When the filter is applied.
    pub fn stage(&self) -> (stage: FilterStage)
        ensures
            stage == self.stage,
    {
        self.stage
    }
}

} // verus!
