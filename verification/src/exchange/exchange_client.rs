//! Exchange-agnostic order-book updates.
use vstd::prelude::*;
use crate::error::{ErrorView, GeneralError, OrderbookResult};

verus! {

/// Simple exchange-agnostic `ask` or `bid` level.
/// Consists of two elements: <price> and <amount>.
#[derive(Debug)]
pub struct OrderUpdate(pub Vec<String>);

impl View for OrderUpdate {
    type V = Seq<Seq<char>>;

    open spec fn view(&self) -> Seq<Seq<char>> {
        self.0@.map_values(|s: String| s@)
    }
}

impl Clone for OrderUpdate {
    fn clone(&self) -> (r: Self)
        ensures
            r.0@ == self.0@,
            r@ == self@,
    {
        let n = self.0.len();
        let mut v: Vec<String> = Vec::new();
        let mut i: usize = 0;
        while i < n
            invariant
                n == self.0@.len(),
                i <= n,
                v@ == self.0@.take(i as int),
            decreases n - i,
        {
            v.push(self.0[i].clone());
            i = i + 1;
            assert(v@ =~= self.0@.take(i as int));
        }
        assert(self.0@.take(n as int) =~= self.0@);
        OrderUpdate(v)
    }
}

/// The views of a run of order updates.
pub open spec fn orders_view(s: Seq<OrderUpdate>) -> Seq<Seq<Seq<char>>> {
    s.map_values(|o: OrderUpdate| o@)
}

/// Whole orderbook update. A pair of vectors of `OrderUpdate`.
#[derive(Debug)]
pub struct OrderbookUpdate {
    pub bids: Vec<OrderUpdate>,
    pub asks: Vec<OrderUpdate>,
}

/// A pair of currencies. Rate is calculated as `first_currency`/`second_currency`.
#[derive(Debug)]
pub struct TradingPair {
    pub first_currency: String,
    pub second_currency: String,
}

impl Clone for TradingPair {
    fn clone(&self) -> (r: Self)
        ensures
            r == *self,
    {
        TradingPair {
            first_currency: self.first_currency.clone(),
            second_currency: self.second_currency.clone(),
        }
    }
}

impl Default for TradingPair {
    /// Ether against bitcoin.
    fn default() -> (r: Self)
        ensures
            r.first_currency@ == "eth"@,
            r.second_currency@ == "btc"@,
    {
        TradingPair {
            first_currency: String::from_str("eth"),
            second_currency: String::from_str("btc"),
        }
    }
}

#[verifier::external_type_specification]
#[verifier::external_body]
pub struct ExUrl(url::Url);

/// The URL that `url::Url::parse` reads from `address`, or `None` where it
/// fails.
pub uninterp spec fn parsed_url(address: Seq<char>) -> Option<url::Url>;

/// Calls `url::Url::parse`, which reads an absolute URL from a string and
/// fails with a `url::ParseError` when it cannot. The contract claims that
/// its outcome depends on the text alone: it is named `parsed_url`, and what
/// the URL holds is left unsaid.
#[verifier::external_body]
fn parse_url(address: &str) -> (r: Option<url::Url>)
    ensures
        r == parsed_url(address@),
{
    url::Url::parse(address).ok()
}

/// The URL to connect to for the websocket address `address`, or a
/// connection error that names the address.
pub fn connection_url(address: &str) -> (r: OrderbookResult<url::Url>)
    ensures
        r is Ok <==> parsed_url(address@) is Some,
        r matches Ok(u) ==> parsed_url(address@) == Some(u),
        r matches Err(e) ==> e@ == ErrorView::ConnectionError("Failed to parse URL: "@ + address@),
{
    match parse_url(address) {
        Some(u) => Ok(u),
        None => {
            let mut message = String::from_str("Failed to parse URL: ");
            message.append(address);
            Err(GeneralError::connection_error(message))
        },
    }
}

} // verus!
