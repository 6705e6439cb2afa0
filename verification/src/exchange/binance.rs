//! Binance: its address, subscription message and order-book messages.
use vstd::prelude::*;
use crate::error::{ErrorView, GeneralError, OrderbookResult};
use crate::exchange::exchange_client::{OrderUpdate, OrderbookUpdate, TradingPair};

verus! {

pub const BINANCE_ADDR: &'static str = "wss://stream.binance.com:9443/ws";

/// The name of the exchange.
pub fn get_name() -> (r: &'static str)
    ensures
        r@ == "binance"@,
{
    "binance"
}

/// The websocket address of Binance.
pub fn get_address() -> (r: &'static str)
    ensures
        r@ == BINANCE_ADDR@,
{
    BINANCE_ADDR
}

/// The `params` field of Binance subscribe request.
/// Example: "ethbtc@depth10", where `etcbtc` is trading pair, and `depth` is amount of top
/// asks/bids in pair.
#[derive(Debug)]
pub struct Params(pub Vec<String>);

impl Params {
    /// The stream of the best ten levels of `pair`.
    pub fn from_pair(pair: TradingPair) -> (r: Self)
        ensures
            r.0@.len() == 1,
            r.0@[0]@ == pair.first_currency@ + pair.second_currency@ + "@depth10"@,
    {
        let mut s = pair.first_currency.clone();
        s.append(pair.second_currency.as_str());
        s.append("@depth10");
        let mut v: Vec<String> = Vec::new();
        v.push(s);
        Params(v)
    }
}

/// The message structure to subscribe to Binance events.
/// Example:
/// {
///  "method": "SUBSCRIBE",
///  "params": [
///     "ethbtc@depth10"
///   ],
///   "id": 1
/// }
#[derive(Debug)]
pub struct BinanceSubMessage {
    pub method: String,
    pub params: Params,
    pub id: u32,
}

impl BinanceSubMessage {
    /// The request that subscribes to the best ten levels of `pair`.
    pub fn subscribe_to_pair(pair: TradingPair) -> (r: Self)
        ensures
            r.method@ == "SUBSCRIBE"@,
            r.params.0@.len() == 1,
            r.params.0@[0]@ == pair.first_currency@ + pair.second_currency@ + "@depth10"@,
            r.id == 1,
    {
        BinanceSubMessage { method: String::from_str("SUBSCRIBE"), params: Params::from_pair(pair), id: 1 }
    }
}

/// Typical stream data message from Binance.
#[derive(Debug)]
pub struct BinanceOrderbookResponse {
    pub bids: Vec<OrderUpdate>,
    pub asks: Vec<OrderUpdate>,
}

/// The update that a read Binance message carries, or, when the message did
/// not read as one, a parse error with the reader's message.
pub fn handle_message(parsed: Result<BinanceOrderbookResponse, String>) -> (r: OrderbookResult<OrderbookUpdate>)
    ensures
        match parsed {
            Ok(response) => r matches Ok(u) && u.bids == response.bids && u.asks == response.asks,
            Err(message) => r matches Err(e) && e@ == ErrorView::ParseError(message@),
        },
{
    match parsed {
        Ok(response) => Ok(OrderbookUpdate { bids: response.bids, asks: response.asks }),
        Err(message) => Err(GeneralError::parse_error(message)),
    }
}

} // verus!
