//! The messages that the service streams out: levels and summaries.
use vstd::prelude::*;
use crate::decimal::{parse_decimal, parse_result, MAX_UNITS};
use crate::error::{decimal_error_text, format_error, ErrorView, GeneralError, OrderbookResult};
use crate::exchange::exchange_client::OrderUpdate;
use std::cmp::Ordering;
use vstd::std_specs::cmp::{PartialEqSpec, PartialEqSpecImpl, PartialOrdSpec, PartialOrdSpecImpl};

verus! {

/// One price level of one exchange: a price and the amount offered there.
/// Price and amount are fixed-point values (units of 10^-18).
#[derive(Debug)]
pub struct Level {
    pub exchange: String,
    pub price: i128,
    pub amount: i128,
}

/// A level as plain values.
pub struct LevelView {
    pub exchange: Seq<char>,
    pub price: i128,
    pub amount: i128,
}

impl View for Level {
    type V = LevelView;

    open spec fn view(&self) -> LevelView {
        LevelView { exchange: self.exchange@, price: self.price, amount: self.amount }
    }
}

impl Clone for Level {
    fn clone(&self) -> (r: Self)
        ensures
            r == *self,
    {
        Level { exchange: self.exchange.clone(), price: self.price, amount: self.amount }
    }
}

/// The views of a run of levels.
pub open spec fn levels_view(s: Seq<Level>) -> Seq<LevelView> {
    s.map_values(|l: Level| l@)
}

/// The price is one that a fixed-point number read from text can have.
pub open spec fn price_in_range(l: LevelView) -> bool {
    -(MAX_UNITS as int) <= l.price <= MAX_UNITS
}

/// The level that an order update of an exchange gives, or the error.
/// The price is read before it is checked that an amount is there.
pub open spec fn level_from_order(exchange: Seq<char>, order: Seq<Seq<char>>) -> Result<LevelView, ErrorView> {
    if order.len() < 1 {
        Err(format_error())
    } else {
        match parse_result(order[0]) {
            Err(e) => Err(ErrorView::ParseError(decimal_error_text(e))),
            Ok(price) => if order.len() < 2 {
                Err(format_error())
            } else {
                match parse_result(order[1]) {
                    Err(e) => Err(ErrorView::ParseError(decimal_error_text(e))),
                    Ok(amount) => Ok(LevelView { exchange, price, amount }),
                }
            },
        }
    }
}

/// The level of `r`, by view, with its error by view.
pub open spec fn level_result_view(r: OrderbookResult<Level>) -> Result<LevelView, ErrorView> {
    match r {
        Ok(l) => Ok(l@),
        Err(e) => Err(e@),
    }
}

impl Level {
    /// The level that an order update of `exchange` gives: its first element
    /// read as the price, its second as the amount.
    pub fn from_order(exchange: &str, update: OrderUpdate) -> (r: OrderbookResult<Self>)
        ensures
            level_result_view(r) == level_from_order(exchange@, update@),
            r is Ok ==> price_in_range(r->Ok_0@),
    {
        if update.0.len() < 1 {
            return Err(GeneralError::orders_format_error());
        }
        let price = match parse_decimal(update.0[0].as_str()) {
            Ok(p) => p,
            Err(e) => {
                return Err(GeneralError::from_decimal_error(e));
            },
        };
        if update.0.len() < 2 {
            return Err(GeneralError::orders_format_error());
        }
        let amount = match parse_decimal(update.0[1].as_str()) {
            Ok(a) => a,
            Err(e) => {
                return Err(GeneralError::from_decimal_error(e));
            },
        };
        Ok(Level { exchange: String::from_str(exchange), price, amount })
    }
}

/// The merged best levels of all exchanges and the spread between them.
#[derive(Debug)]
pub struct Summary {
    pub spread: i128,
    pub bids: Vec<Level>,
    pub asks: Vec<Level>,
}

/// Price differences up to this many units (10^-10) count as no difference.
pub const PRICE_EPSILON: i128 = 100_000_000;

/// How the price of `a` compares with that of `b`, up to `PRICE_EPSILON`.
pub open spec fn price_order(a: Level, b: Level) -> Option<Ordering> {
    if a.price - b.price > PRICE_EPSILON {
        Some(Ordering::Greater)
    } else if b.price - a.price > PRICE_EPSILON {
        Some(Ordering::Less)
    } else {
        Some(Ordering::Equal)
    }
}

impl PartialEq for Level {
    fn eq(&self, other: &Self) -> (r: bool) {
        self.exchange == other.exchange && self.price == other.price && self.amount == other.amount
    }
}

impl PartialEqSpecImpl for Level {
    open spec fn obeys_eq_spec() -> bool {
        true
    }

    open spec fn eq_spec(&self, other: &Level) -> bool {
        self.exchange@ == other.exchange@ && self.price == other.price && self.amount == other.amount
    }
}

/// `a.price - b.price > PRICE_EPSILON`, computed without overflow.
fn exceeds_by_epsilon(a: i128, b: i128) -> (r: bool)
    ensures
        r == (a - b > PRICE_EPSILON),
{
    if b > i128::MAX - PRICE_EPSILON {
        false
    } else {
        a > b + PRICE_EPSILON
    }
}

impl PartialOrd for Level {
    /// Orders levels by price, treating prices within `PRICE_EPSILON` of each
    /// other as equal.
    fn partial_cmp(&self, other: &Self) -> (r: Option<Ordering>)
        ensures
            self.price - other.price > PRICE_EPSILON ==> r == Some(Ordering::Greater),
            other.price - self.price > PRICE_EPSILON ==> r == Some(Ordering::Less),
            -PRICE_EPSILON <= self.price - other.price <= PRICE_EPSILON ==> r == Some(Ordering::Equal),
    {
        if exceeds_by_epsilon(self.price, other.price) {
            return Some(Ordering::Greater);
        } else if exceeds_by_epsilon(other.price, self.price) {
            return Some(Ordering::Less);
        }
        Some(Ordering::Equal)
    }
}

impl PartialOrdSpecImpl for Level {
    open spec fn obeys_partial_cmp_spec() -> bool {
        true
    }

    open spec fn partial_cmp_spec(&self, other: &Level) -> Option<Ordering> {
        price_order(*self, *other)
    }
}

/// Comparing two levels one way round gives the reverse of comparing them the
/// other way round, and they compare equal exactly when their prices differ
/// by at most `PRICE_EPSILON`.
pub proof fn lemma_price_order_reverses(a: Level, b: Level)
    ensures
        price_order(a, b) == Some(Ordering::Greater) <==> price_order(b, a) == Some(Ordering::Less),
        price_order(a, b) == Some(Ordering::Equal) <==> price_order(b, a) == Some(Ordering::Equal),
        price_order(a, b) == Some(Ordering::Equal) <==> -PRICE_EPSILON <= a.price - b.price <= PRICE_EPSILON,
{
}

/// A level whose price is more than `PRICE_EPSILON` above another's compares
/// greater than it, one more than `PRICE_EPSILON` below compares less, and
/// prices within `PRICE_EPSILON` of each other compare equal.
pub proof fn lemma_partial_cmp_by_price(a: Level, b: Level)
    ensures
        a.price - b.price > PRICE_EPSILON ==> PartialOrdSpec::partial_cmp_spec(&a, &b) == Some(Ordering::Greater),
        b.price - a.price > PRICE_EPSILON ==> PartialOrdSpec::partial_cmp_spec(&a, &b) == Some(Ordering::Less),
        -PRICE_EPSILON <= a.price - b.price <= PRICE_EPSILON ==> PartialOrdSpec::partial_cmp_spec(&a, &b) == Some(Ordering::Equal),
        a.price > b.price + PRICE_EPSILON ==> PartialOrdSpec::partial_cmp_spec(&a, &b) != Some(Ordering::Less),
{
}

/// Two levels are `==` exactly when they are of the same exchange, at the
/// same price, with the same amount.
pub proof fn lemma_level_eq_fields(a: Level, b: Level)
    ensures
        PartialEqSpec::eq_spec(&a, &b) <==> a@ == b@,
        PartialEqSpec::eq_spec(&a, &b) <==> (a.exchange@ == b.exchange@ && a.price == b.price && a.amount == b.amount),
{
}

} // verus!
