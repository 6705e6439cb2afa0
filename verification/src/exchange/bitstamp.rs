//! Bitstamp: its address, subscription message and order-book messages.
use vstd::prelude::*;
use crate::error::{ErrorView, GeneralError, OrderbookResult};
use crate::exchange::exchange_client::{OrderUpdate, OrderbookUpdate, TradingPair};

verus! {

pub const BITSTAMP_ADDRESS: &'static str = "wss://ws.bitstamp.net";

/// The name of the exchange.
pub fn get_name() -> (r: &'static str)
    ensures
        r@ == "bitstamp"@,
{
    "bitstamp"
}

/// The websocket address of Bitstamp.
pub fn get_address() -> (r: &'static str)
    ensures
        r@ == BITSTAMP_ADDRESS@,
{
    BITSTAMP_ADDRESS
}

/// The `channel` type for `data` field of Bitstamp subscribe request.
#[derive(Debug)]
pub struct Channel {
    pub channel: String,
}

impl Channel {
    /// The order-book channel of `pair`.
    pub fn from_pair(pair: TradingPair) -> (r: Self)
        ensures
            r.channel@ == "order_book_"@ + pair.first_currency@ + pair.second_currency@,
    {
        let mut channel = String::from_str("order_book_");
        channel.append(pair.first_currency.as_str());
        channel.append(pair.second_currency.as_str());
        Channel { channel }
    }
}

/// The message structure to subscribe to Bitstamp events.
/// Example:
/// {
///     "event": "bts:subscribe",
///     "data": {
///         "channel": "order_book_ethbtc"
///     }
/// }
#[derive(Debug)]
pub struct BitstampSubMessage {
    pub event: String,
    pub data: Channel,
}

impl Default for BitstampSubMessage {
    fn default() -> (r: Self)
        ensures
            r.event@ == "bts:subscribe"@,
            r.data.channel@ == "order_book_ethbtc"@,
    {
        BitstampSubMessage {
            event: String::from_str("bts:subscribe"),
            data: Channel { channel: String::from_str("order_book_ethbtc") },
        }
    }
}

impl BitstampSubMessage {
    /// The request that subscribes to the order book of `pair`.
    pub fn subscribe_to_pair(pair: TradingPair) -> (r: Self)
        ensures
            r.event@ == "bts:subscribe"@,
            r.data.channel@ == "order_book_"@ + pair.first_currency@ + pair.second_currency@,
    {
        BitstampSubMessage { event: String::from_str("bts:subscribe"), data: Channel::from_pair(pair) }
    }
}

/// The 'data' field of Bitstamp response.
#[derive(Debug)]
pub struct BitstampResponseData {
    pub timestamp: String,
    pub microtimestamp: String,
    pub bids: Vec<OrderUpdate>,
    pub asks: Vec<OrderUpdate>,
}

/// General Bitstamp response.
#[derive(Debug)]
pub struct BitstampResponse {
    pub data: BitstampResponseData,
    pub channel: String,
    pub event: String,
}

/// The update that a read Bitstamp message carries, or, when the message did
/// not read as one, a parse error with the reader's message.
pub fn handle_message(parsed: Result<BitstampResponse, String>) -> (r: OrderbookResult<OrderbookUpdate>)
    ensures
        match parsed {
            Ok(response) => r matches Ok(u) && u.bids == response.data.bids && u.asks == response.data.asks,
            Err(message) => r matches Err(e) && e@ == ErrorView::ParseError(message@),
        },
{
    match parsed {
        Ok(response) => Ok(OrderbookUpdate { bids: response.data.bids, asks: response.data.asks }),
        Err(message) => Err(GeneralError::parse_error(message)),
    }
}

} // verus!
