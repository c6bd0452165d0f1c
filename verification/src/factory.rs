//! The contracts that create pools.
use crate::amm::{copy_events, Variant};
use crate::primitives::{Address, B256};
use vstd::prelude::*;

verus! {

/// A pool factory: where it lives, what it creates, and the events to watch for it.
#[derive(Debug)]
pub struct Factory {
    pub address: Address,
    pub variant: Variant,
    /// The signature of the event that announces a new pool.
    pub discovery_event: B256,
    /// The signatures of the events that change a pool of this factory.
    pub pool_events: Vec<B256>,
}

/// What a [`Factory`] stands for.
pub struct FactoryView {
    pub address: Address,
    pub variant: Variant,
    pub discovery_event: B256,
    pub pool_events: Seq<B256>,
}

impl View for Factory {
    type V = FactoryView;

    open spec fn view(&self) -> FactoryView {
        FactoryView {
            address: self.address,
            variant: self.variant,
            discovery_event: self.discovery_event,
            pool_events: self.pool_events@,
        }
    }
}

impl Clone for Factory {
    fn clone(&self) -> (copy: Factory)
        ensures
            copy@ == self@,
    {
        Factory {
            address: self.address,
            variant: self.variant,
            discovery_event: self.discovery_event,
            pool_events: copy_events(&self.pool_events),
        }
    }
}

} // verus!
