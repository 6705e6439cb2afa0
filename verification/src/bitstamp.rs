//! Bitstamp's name, websocket address, subscription message for the
//! ether/bitcoin order book, and its order-book messages with their
//! timestamps.
use vstd::prelude::*;
use crate::exchange_connection::{OrderUpdate, OrderbookUpdate};

verus! {

pub const BITSTAMP_ADDRESS: &'static str = "wss://ws.bitstamp.net";

pub const BITSTAMP_SUBSCRIBE: &'static str = r#"{
    "event": "bts:subscribe",
    "data": {
        "channel": "order_book_ethbtc"
    }
    }
    "#;

/// Where and how to subscribe to Bitstamp.
pub struct BitstampClientConfig;

impl BitstampClientConfig {
    /// The name of the exchange.
    pub fn get_name() -> (r: &'static str)
        ensures
            r@ == "bitstamp"@,
    {
        "bitstamp"
    }

    /// The websocket address of Bitstamp.
    pub fn get_address() -> (r: &'static str)
        ensures
            r@ == BITSTAMP_ADDRESS@,
    {
        BITSTAMP_ADDRESS
    }

    /// The message that subscribes to the ether/bitcoin order book.
    pub fn get_subscription_message() -> (r: &'static str)
        ensures
            r@ == BITSTAMP_SUBSCRIBE@,
    {
        BITSTAMP_SUBSCRIBE
    }
}

/// The `data` field of an order-book message of Bitstamp.
#[derive(Debug)]
pub struct BitstampResponseData {
    pub timestamp: String,
    pub microtimestamp: String,
    pub bids: Vec<OrderUpdate>,
    pub asks: Vec<OrderUpdate>,
}

/// An order-book message of Bitstamp.
#[derive(Debug)]
pub struct BitstampResponse {
    pub data: BitstampResponseData,
    pub channel: String,
    pub event: String,
}

impl BitstampResponse {
    /// The update that the message carries.
    pub fn into_update(self) -> (r: OrderbookUpdate)
        ensures
            r.bids == self.data.bids,
            r.asks == self.data.asks,
    {
        OrderbookUpdate { bids: self.data.bids, asks: self.data.asks }
    }
}

} // verus!
