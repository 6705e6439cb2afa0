//! Binance's websocket address, its subscription message for the
//! ether/bitcoin book of depth ten, and its order-book messages.
use vstd::prelude::*;
use crate::exchange_connection::{OrderUpdate, OrderbookUpdate};

verus! {

pub const BINANCE_ADDR: &'static str = "wss://stream.binance.com:9443/ws";

pub const BINANCE_SUBSCRIBE: &'static str = r#"{
  "method": "SUBSCRIBE",
  "params": [
    "ethbtc@depth10"
  ],
  "id": 1
}"#;

/// An order-book message of Binance.
#[derive(Debug)]
pub struct BinanceResponse {
    pub bids: Vec<OrderUpdate>,
    pub asks: Vec<OrderUpdate>,
}

impl BinanceResponse {
    /// The update that the message carries.
    pub fn into_update(self) -> (r: OrderbookUpdate)
        ensures
            r.bids == self.bids,
            r.asks == self.asks,
    {
        OrderbookUpdate { bids: self.bids, asks: self.asks }
    }
}

/// Where and how to subscribe to Binance.
pub struct BinanceData;

impl BinanceData {
    /// The websocket address of Binance.
    pub fn get_address() -> (r: &'static str)
        ensures
            r@ == BINANCE_ADDR@,
    {
        BINANCE_ADDR
    }

    /// The message that subscribes to the ether/bitcoin book of depth ten.
    pub fn get_subscription_message() -> (r: &'static str)
        ensures
            r@ == BINANCE_SUBSCRIBE@,
    {
        BINANCE_SUBSCRIBE
    }
}

} // verus!
