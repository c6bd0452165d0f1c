//! The filter for the logs that concern the state space.
use crate::primitives::B256;
use alloy::primitives::FixedBytes;
use alloy::rpc::types::{Filter, FilterSet};
use vstd::prelude::*;

verus! {

/// `alloy::rpc::types::Filter`.
#[verifier::external_type_specification]
#[verifier::external_body]
pub struct ExFilter(alloy::rpc::types::Filter);

/// The event signatures that a filter lists for the first topic of a log. A filter that lists none
/// accepts any.
pub uninterp spec fn filter_signatures(filter: Filter) -> Set<Seq<u8>>;

/// The one block whose logs a filter accepts, if it is made for a single block.
pub uninterp spec fn filter_block(filter: Filter) -> Option<u64>;

/// A filter puts no condition on who emitted a log, nor on any topic but the first.
pub uninterp spec fn filter_is_open(filter: Filter) -> bool;

/// The bytes of an event signature.
pub open spec fn signature_bytes(event: B256) -> Seq<u8> {
    event.0@
}

/// Calls `Filter::new` and `Filter::event_signature`, with a `FilterSet` made from a list.
///
/// Trusted: the filter lists these signatures for the first topic and no others, is not made for
/// a single block, and has no other condition.
#[verifier::external_body]
pub(crate) fn event_filter(events: &Vec<B256>) -> (filter: Filter)
    ensures
        filter_signatures(filter) == events@.map_values(
            |event: B256| signature_bytes(event),
        ).to_set(),
        filter_block(filter) == None::<u64>,
        filter_is_open(filter),
{
    let signatures: Vec<FixedBytes<32>> = events.iter().map(|e| FixedBytes::new(e.0)).collect();
    Filter::new().event_signature(FilterSet::from(signatures))
}

/// Calls `Filter::select` with a block number on a copy of a filter.
///
/// Trusted: the copy accepts the logs of that block alone; its other conditions stay.
#[verifier::external_body]
pub(crate) fn select_block(filter: &Filter, block_number: u64) -> (selected: Filter)
    ensures
        filter_block(selected) == Some(block_number),
        filter_signatures(selected) == filter_signatures(*filter),
        filter_is_open(selected) == filter_is_open(*filter),
{
    filter.clone().select(block_number)
}

} // verus!
