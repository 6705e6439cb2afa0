//! What the service does with each message of an exchange.
use vstd::prelude::*;
use crate::error::OrderbookResult;
use crate::exchange::exchange_client::{orders_view, OrderbookUpdate};
use crate::grpc::Summary;
use crate::merger::{summary_matches, update_defined, updated_view, Merger};

verus! {

/// The step of the service for a message of exchange `name`: the merger is
/// updated with it, a failed update being let pass, and the summary of the
/// merger after the update is what is sent on.
pub fn handle_exchange_update(merger: &mut Merger, name: String, orders: OrderbookUpdate) -> (r: OrderbookResult<Summary>)
    requires
        update_defined(name@, orders_view(orders.asks@), orders_view(orders.bids@)),
    ensures
        final(merger).wf(),
        final(merger)@ == updated_view(old(merger)@, name@, orders_view(orders.asks@), orders_view(orders.bids@)),
        summary_matches(final(merger)@, r),
{
    match merger.update_exchange(name, orders) {
        Ok(()) => {},
        Err(_) => {},
    }
    merger.provide_summary()
}

} // verus!
