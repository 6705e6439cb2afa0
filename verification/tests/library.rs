use orderbook_merge::binance::{BinanceData, BinanceResponse};
use orderbook_merge::bitstamp::{BitstampClientConfig, BitstampResponse as ConfigResponse, BitstampResponseData as ConfigResponseData};
use orderbook_merge::data::Orderbook;
use orderbook_merge::decimal::{parse_decimal, DecimalError, ONE};
use orderbook_merge::error::GeneralError;
use orderbook_merge::exchange::binance::{self, BinanceOrderbookResponse, BinanceSubMessage, Params};
use orderbook_merge::exchange::bitstamp::{self, BitstampResponse, BitstampResponseData, BitstampSubMessage, Channel};
use orderbook_merge::exchange::exchange_client::{connection_url, OrderUpdate, OrderbookUpdate, TradingPair};
use orderbook_merge::exchange_connection::str_less;
use orderbook_merge::grpc::{Level, Summary};
use orderbook_merge::merger::Merger;
use orderbook_merge::server::handle_exchange_update;
use std::cmp::Ordering;

fn order(price: &str, amount: &str) -> OrderUpdate {
    OrderUpdate(vec![price.to_string(), amount.to_string()])
}

fn orders(prices: &[&str]) -> Vec<OrderUpdate> {
    prices.iter().map(|p| order(p, "1")).collect()
}

fn ten(start: i64, step: i64) -> Vec<OrderUpdate> {
    (0..10).map(|i| order(&(start + step * i).to_string(), "1")).collect()
}

fn data_error() -> String {
    "Exchange provided inconsistent data".to_string()
}

fn error_parts(e: GeneralError) -> (&'static str, String) {
    match e {
        GeneralError::DataError(m) => ("data", m),
        GeneralError::ParseError(m) => ("parse", m),
        GeneralError::ConnectionError(m) => ("connection", m),
    }
}

#[test]
fn parses_plain_decimals() {
    assert_eq!(parse_decimal("12"), Ok(12 * ONE));
    assert_eq!(parse_decimal("0.5"), Ok(ONE / 2));
    assert_eq!(parse_decimal("-1.25"), Ok(-(ONE + ONE / 4)));
    assert_eq!(parse_decimal("+3"), Ok(3 * ONE));
    assert_eq!(parse_decimal(".5"), Ok(ONE / 2));
    assert_eq!(parse_decimal("7."), Ok(7 * ONE));
    assert_eq!(parse_decimal("0.06543200"), Ok(65_432_000_000_000_000));
    assert_eq!(parse_decimal("-0"), Ok(0));
}

#[test]
fn cuts_fraction_past_eighteen_digits() {
    assert_eq!(parse_decimal("0.0000000000000000019"), Ok(1));
    assert_eq!(parse_decimal("0.000000000000000000999"), Ok(0));
    assert_eq!(parse_decimal("1.000000000000000001"), Ok(ONE + 1));
}

#[test]
fn parses_exponents() {
    assert_eq!(parse_decimal("1e5"), Ok(100_000 * ONE));
    assert_eq!(parse_decimal("1E+2"), Ok(100 * ONE));
    assert_eq!(parse_decimal("1.5e-3"), Ok(1_500_000_000_000_000));
    assert_eq!(parse_decimal("-2.5E1"), Ok(-25 * ONE));
    assert_eq!(parse_decimal(".5e1"), Ok(5 * ONE));
    assert_eq!(parse_decimal("5.e0"), Ok(5 * ONE));
    assert_eq!(parse_decimal("1e-18"), Ok(1));
    assert_eq!(parse_decimal("1e-19"), Ok(0));
    assert_eq!(parse_decimal("123e-20"), Ok(1));
    assert_eq!(parse_decimal("0e999999999999999999999999999999"), Ok(0));
    assert_eq!(parse_decimal("7e-999999999999999999999999999999"), Ok(0));
    assert_eq!(parse_decimal("0.00001e5"), Ok(ONE));
}

#[test]
fn refuses_what_is_not_a_float_literal() {
    assert_eq!(parse_decimal(""), Err(DecimalError::Empty));
    assert_eq!(parse_decimal("."), Err(DecimalError::Invalid));
    assert_eq!(parse_decimal("-"), Err(DecimalError::Invalid));
    assert_eq!(parse_decimal("1.2.3"), Err(DecimalError::Invalid));
    assert_eq!(parse_decimal("1e"), Err(DecimalError::Invalid));
    assert_eq!(parse_decimal("e5"), Err(DecimalError::Invalid));
    assert_eq!(parse_decimal("1e5.0"), Err(DecimalError::Invalid));
    assert_eq!(parse_decimal("1e+"), Err(DecimalError::Invalid));
    assert_eq!(parse_decimal("abc"), Err(DecimalError::Invalid));
    assert_eq!(parse_decimal(" 1"), Err(DecimalError::Invalid));
    assert_eq!(parse_decimal("--1"), Err(DecimalError::Invalid));
    assert_eq!(parse_decimal("infinit"), Err(DecimalError::Invalid));
}

#[test]
fn refuses_infinity_and_not_a_number() {
    assert_eq!(parse_decimal("inf"), Err(DecimalError::NotFinite));
    assert_eq!(parse_decimal("-Infinity"), Err(DecimalError::NotFinite));
    assert_eq!(parse_decimal("+INF"), Err(DecimalError::NotFinite));
    assert_eq!(parse_decimal("NaN"), Err(DecimalError::NotFinite));
}

#[test]
fn refuses_magnitudes_out_of_range() {
    assert_eq!(parse_decimal("170141183460469231731.687303715884105727"), Ok(i128::MAX));
    assert_eq!(parse_decimal("-170141183460469231731.687303715884105727"), Ok(-i128::MAX));
    assert_eq!(parse_decimal("170141183460469231731.687303715884105728"), Err(DecimalError::OutOfRange));
    assert_eq!(parse_decimal("1e21"), Err(DecimalError::OutOfRange));
    assert_eq!(parse_decimal("1e400"), Err(DecimalError::OutOfRange));
    assert_eq!(parse_decimal("1e999999999999999999999999999999"), Err(DecimalError::OutOfRange));
    assert_eq!(parse_decimal("99999999999999999999.5"), Ok(99_999_999_999_999_999_999 * ONE + ONE / 2));
}

#[test]
fn level_from_order_reads_price_and_amount() {
    let l = Level::from_order("binance", order("0.0687", "12.5")).unwrap();
    assert_eq!(l.exchange, "binance");
    assert_eq!(l.price, 68_700_000_000_000_000);
    assert_eq!(l.amount, 12 * ONE + ONE / 2);
}

#[test]
fn level_from_order_errors() {
    let e = Level::from_order("x", OrderUpdate(vec![])).err().unwrap();
    assert_eq!(error_parts(e), ("data", data_error()));
    let e = Level::from_order("x", OrderUpdate(vec!["1".to_string()])).err().unwrap();
    assert_eq!(error_parts(e), ("data", data_error()));
    // The price is read before the amount is looked for.
    let e = Level::from_order("x", OrderUpdate(vec!["x1".to_string()])).err().unwrap();
    assert_eq!(error_parts(e), ("parse", "invalid float literal".to_string()));
    let e = Level::from_order("x", order("1", "")).err().unwrap();
    assert_eq!(error_parts(e), ("parse", "cannot parse float from empty string".to_string()));
    let e = Level::from_order("x", order("1", "1234567890123456789012")).err().unwrap();
    assert_eq!(error_parts(e), ("parse", "number too large to fit in target type".to_string()));
    let e = Level::from_order("x", order("nan", "1")).err().unwrap();
    assert_eq!(error_parts(e), ("parse", "number is not finite".to_string()));
    let l = Level::from_order("x", order("1e5", "2.5e-1")).unwrap();
    assert_eq!(l.price, 100_000 * ONE);
    assert_eq!(l.amount, ONE / 4);
}

#[test]
fn error_messages() {
    assert_eq!(GeneralError::orders_format_error().message(), "DataError: Exchange provided inconsistent data");
    assert_eq!(GeneralError::connection_error("down".to_string()).message(), "ConnectionError: down");
    assert_eq!(GeneralError::parse_error("bad".to_string()).message(), "ParseError: bad");
    assert_eq!(
        GeneralError::from_decimal_error(DecimalError::Invalid).message(),
        "ParseError: invalid float literal"
    );
}

#[test]
fn summary_of_two_exchanges() {
    let mut merger = Merger::new();
    let a = OrderbookUpdate { bids: ten(100, -1), asks: ten(101, 1) };
    assert!(merger.update_exchange("a".to_string(), a).is_ok());
    let b = OrderbookUpdate { bids: ten(99, -2), asks: ten(102, 2) };
    assert!(merger.update_exchange("b".to_string(), b).is_ok());
    let s = merger.provide_summary().unwrap();
    let bid_prices: Vec<i128> = s.bids.iter().map(|l| l.price / ONE).collect();
    let ask_prices: Vec<i128> = s.asks.iter().map(|l| l.price / ONE).collect();
    // Bids, highest first.
    assert_eq!(bid_prices, vec![100, 99, 99, 98, 97, 97, 96, 95, 95, 94]);
    // Asks, lowest first.
    assert_eq!(ask_prices, vec![101, 102, 102, 103, 104, 104, 105, 106, 106, 107]);
    // The best ask less the best bid.
    assert_eq!(s.spread, ONE);
    assert_eq!(s.bids[0].exchange, "a");
    assert_eq!(s.asks[0].exchange, "a");
}

#[test]
fn summary_holds_the_best_of_all_exchanges() {
    let ob = |b: i64, a: i64| OrderbookUpdate { bids: ten(b, -2), asks: ten(a, 2) };
    let mut m = Merger::new();
    assert!(m.update_exchange("binance".to_string(), ob(99, 101)).is_ok());
    assert!(m.update_exchange("bitstamp".to_string(), ob(98, 102)).is_ok());
    let s = m.provide_summary().unwrap();
    assert_eq!(s.spread, 2 * ONE);
    let bids: Vec<i128> = s.bids.iter().map(|l| l.price / ONE).collect();
    let asks: Vec<i128> = s.asks.iter().map(|l| l.price / ONE).collect();
    assert_eq!(bids, vec![99, 98, 97, 96, 95, 94, 93, 92, 91, 90]);
    assert_eq!(asks, vec![101, 102, 103, 104, 105, 106, 107, 108, 109, 110]);
    for l in s.bids.iter().chain(s.asks.iter()) {
        assert_eq!(l.amount, ONE);
        let odd = (l.price / ONE) % 2 == 1;
        assert_eq!(l.exchange == "binance", odd);
    }
}

#[test]
fn summary_leaves_out_what_lies_beyond_the_tenth() {
    let mut m = Merger::new();
    let twelve_bids: Vec<OrderUpdate> = (0..12).map(|i| order(&(100 - i).to_string(), "1")).collect();
    let twelve_asks: Vec<OrderUpdate> = (0..12).map(|i| order(&(200 + i).to_string(), "1")).collect();
    assert!(m.update_exchange("a".to_string(), OrderbookUpdate { bids: twelve_bids, asks: twelve_asks }).is_ok());
    assert!(m.update_exchange("b".to_string(), OrderbookUpdate { bids: ten(50, -1), asks: ten(300, 1) }).is_ok());
    let s = m.provide_summary().unwrap();
    let bids: Vec<i128> = s.bids.iter().map(|l| l.price / ONE).collect();
    let asks: Vec<i128> = s.asks.iter().map(|l| l.price / ONE).collect();
    assert_eq!(bids, (91..=100).rev().collect::<Vec<i128>>());
    assert_eq!(asks, (200..=209).collect::<Vec<i128>>());
    assert_eq!(s.spread, 100 * ONE);
}

#[test]
fn update_reads_exponents() {
    let mut m = Merger::new();
    let mut bids = ten(90, -1);
    bids[0] = order("9.5e1", "1");
    assert!(m.update_exchange("a".to_string(), OrderbookUpdate { bids, asks: ten(100, 1) }).is_ok());
    let s = m.provide_summary().unwrap();
    assert_eq!(s.bids[0].price, 95 * ONE);
    assert_eq!(s.spread, 5 * ONE);
}

#[test]
fn summary_of_nothing_is_an_error() {
    let merger = Merger::new();
    let e = merger.provide_summary().err().unwrap();
    assert_eq!(error_parts(e), ("data", data_error()));
}

#[test]
fn update_replaces_what_an_exchange_sent() {
    let mut merger = Merger::new();
    let first = OrderbookUpdate { bids: ten(50, -1), asks: ten(60, 1) };
    assert!(merger.update_exchange("a".to_string(), first).is_ok());
    let second = OrderbookUpdate { bids: ten(10, -1), asks: ten(20, 1) };
    assert!(merger.update_exchange("a".to_string(), second).is_ok());
    let s = merger.provide_summary().unwrap();
    assert_eq!(s.bids.len(), 10);
    assert_eq!(s.bids[0].price, 10 * ONE);
    assert_eq!(s.asks[0].price, 20 * ONE);
    assert_eq!(s.spread, 10 * ONE);
}

#[test]
fn failed_update_removes_the_exchange() {
    let mut merger = Merger::new();
    let good = OrderbookUpdate { bids: ten(50, -1), asks: ten(60, 1) };
    assert!(merger.update_exchange("a".to_string(), good).is_ok());
    let other = OrderbookUpdate { bids: ten(40, -1), asks: ten(70, 1) };
    assert!(merger.update_exchange("b".to_string(), other).is_ok());
    let mut bad_bids = ten(50, -1);
    bad_bids[3] = order("oops", "1");
    let bad = OrderbookUpdate { bids: bad_bids, asks: ten(60, 1) };
    let e = merger.update_exchange("a".to_string(), bad).err().unwrap();
    assert_eq!(error_parts(e), ("parse", "invalid float literal".to_string()));
    let s = merger.provide_summary().unwrap();
    assert!(s.bids.iter().all(|l| l.exchange == "b"));
    assert!(s.asks.iter().all(|l| l.exchange == "b"));
    assert_eq!(s.spread, 30 * ONE);
}

#[test]
fn update_with_fewer_orders_that_fail_returns_the_error() {
    let mut merger = Merger::new();
    let bad = OrderbookUpdate { bids: ten(1, 1), asks: orders(&["1", "2", "x"]) };
    let e = merger.update_exchange("a".to_string(), bad).err().unwrap();
    assert_eq!(error_parts(e), ("parse", "invalid float literal".to_string()));
}

#[test]
fn service_step_sends_the_new_summary() {
    let mut merger = Merger::new();
    let a = OrderbookUpdate { bids: ten(100, -1), asks: ten(101, 1) };
    let s = handle_exchange_update(&mut merger, "binance".to_string(), a).unwrap();
    assert_eq!(s.spread, ONE);
    let bad = OrderbookUpdate { bids: ten(100, -1), asks: orders(&["?"]) };
    let e = handle_exchange_update(&mut merger, "binance".to_string(), bad).err().unwrap();
    assert_eq!(error_parts(e), ("data", data_error()));
}

#[test]
fn summary_from_one_orderbook() {
    let update = OrderbookUpdate { bids: orders(&["1", "2"]), asks: orders(&["3"]) };
    let s = Summary::from_orderbook("bitstamp", update).unwrap();
    assert_eq!(s.spread, ONE);
    assert_eq!(s.bids.len(), 2);
    assert_eq!(s.bids[1].price, 2 * ONE);
    assert_eq!(s.asks[0].exchange, "bitstamp");
    let update = OrderbookUpdate { bids: orders(&["1e2"]), asks: orders(&["x"]) };
    let e = Summary::from_orderbook("bitstamp", update).err().unwrap();
    assert_eq!(error_parts(e), ("parse", "invalid float literal".to_string()));
    let update = OrderbookUpdate { bids: orders(&["1e2"]), asks: orders(&["3"]) };
    assert_eq!(Summary::from_orderbook("b", update).unwrap().bids[0].price, 100 * ONE);
}

#[test]
fn levels_compare_by_price_within_epsilon() {
    let l = |p: i128| Level { exchange: "x".to_string(), price: p, amount: 0 };
    assert_eq!(l(ONE).partial_cmp(&l(2 * ONE)), Some(Ordering::Less));
    assert_eq!(l(2 * ONE).partial_cmp(&l(ONE)), Some(Ordering::Greater));
    assert_eq!(l(ONE).partial_cmp(&l(ONE + 100_000_000)), Some(Ordering::Equal));
    assert_eq!(l(ONE).partial_cmp(&l(ONE + 100_000_001)), Some(Ordering::Less));
    assert_eq!(l(i128::MAX).partial_cmp(&l(i128::MIN)), Some(Ordering::Greater));
    assert!(l(ONE) == l(ONE));
    assert!(l(ONE) != l(ONE + 1));
}

#[test]
fn strings_compare_as_strings() {
    let s = |x: &str| x.to_string();
    assert!(str_less(&s("0.01"), &s("0.012")));
    assert!(!str_less(&s("0.02"), &s("0.012")));
    assert!(!str_less(&s("0"), &s("0")));
    assert!(str_less(&s(""), &s("a")));
    assert!(!str_less(&s("b"), &s("a")));
}

#[test]
fn orderbook_levels() {
    let mut book = Orderbook::new();
    assert_eq!(book.get_amount(), 0);
    book.update_level("0.1".to_string(), 5);
    book.update_level("0.2".to_string(), 7);
    book.update_level("0.1".to_string(), 9);
    assert_eq!(book.get_amount(), 2);
    book.update_level("0.1".to_string(), 0);
    assert_eq!(book.get_amount(), 1);
    book.update_level("0.3".to_string(), 0);
    assert_eq!(book.get_amount(), 1);
}

#[test]
fn subscription_messages() {
    let pair = TradingPair::default();
    assert_eq!(pair.first_currency, "eth");
    assert_eq!(pair.second_currency, "btc");
    let m = BinanceSubMessage::subscribe_to_pair(pair.clone());
    assert_eq!(m.method, "SUBSCRIBE");
    assert_eq!(m.params.0, vec!["ethbtc@depth10".to_string()]);
    assert_eq!(m.id, 1);
    assert_eq!(Params::from_pair(pair.clone()).0, vec!["ethbtc@depth10".to_string()]);
    let m = BitstampSubMessage::subscribe_to_pair(pair.clone());
    assert_eq!(m.event, "bts:subscribe");
    assert_eq!(m.data.channel, "order_book_ethbtc");
    let d = BitstampSubMessage::default();
    assert_eq!(d.event, "bts:subscribe");
    assert_eq!(d.data.channel, "order_book_ethbtc");
    let other = TradingPair { first_currency: "ltc".to_string(), second_currency: "usd".to_string() };
    assert_eq!(Channel::from_pair(other).channel, "order_book_ltcusd");
}

#[test]
fn exchange_names_and_addresses() {
    assert_eq!(binance::get_name(), "binance");
    assert_eq!(binance::get_address(), "wss://stream.binance.com:9443/ws");
    assert_eq!(bitstamp::get_name(), "bitstamp");
    assert_eq!(bitstamp::get_address(), "wss://ws.bitstamp.net");
    assert_eq!(BinanceData::get_address(), "wss://stream.binance.com:9443/ws");
    assert!(BinanceData::get_subscription_message().contains("ethbtc@depth10"));
    assert_eq!(BitstampClientConfig::get_name(), "bitstamp");
    assert_eq!(BitstampClientConfig::get_address(), "wss://ws.bitstamp.net");
    assert!(BitstampClientConfig::get_subscription_message().contains("order_book_ethbtc"));
}

#[test]
fn connection_urls() {
    let u = connection_url("wss://stream.binance.com:9443/ws").unwrap();
    assert_eq!(u.host_str(), Some("stream.binance.com"));
    assert_eq!(u.port(), Some(9443));
    let e = connection_url("not a url").err().unwrap();
    assert_eq!(error_parts(e), ("connection", "Failed to parse URL: not a url".to_string()));
}

#[test]
fn exchange_messages() {
    let r = BinanceOrderbookResponse { bids: orders(&["1"]), asks: orders(&["2", "3"]) };
    let u = binance::handle_message(Ok(r)).unwrap();
    assert_eq!(u.bids.len(), 1);
    assert_eq!(u.asks[1].0[0], "3");
    let e = binance::handle_message(Err("expected value".to_string())).err().unwrap();
    assert_eq!(error_parts(e), ("parse", "expected value".to_string()));
    let r = BitstampResponse {
        data: BitstampResponseData {
            timestamp: "1".to_string(),
            microtimestamp: "1000".to_string(),
            bids: orders(&["5"]),
            asks: orders(&[]),
        },
        channel: "order_book_ethbtc".to_string(),
        event: "data".to_string(),
    };
    let u = bitstamp::handle_message(Ok(r)).unwrap();
    assert_eq!(u.bids[0].0[0], "5");
    assert!(u.asks.is_empty());
    let old = BinanceResponse { bids: orders(&["1"]), asks: vec![] };
    assert_eq!(old.into_update().bids.len(), 1);
}

#[test]
fn whether_an_update_runs_to_its_end() {
    let name = "a".to_string();
    let full = OrderbookUpdate { bids: ten(1, 1), asks: ten(1, 1) };
    assert!(orderbook_merge::merger::can_update(&name, &full));
    let short = OrderbookUpdate { bids: ten(1, 1), asks: orders(&["1", "2"]) };
    assert!(!orderbook_merge::merger::can_update(&name, &short));
    let short_but_failing = OrderbookUpdate { bids: ten(1, 1), asks: orders(&["1", "?"]) };
    assert!(orderbook_merge::merger::can_update(&name, &short_but_failing));
    let short_bids = OrderbookUpdate { bids: orders(&["1"]), asks: ten(1, 1) };
    assert!(!orderbook_merge::merger::can_update(&name, &short_bids));
}

#[test]
fn configured_bitstamp_response_carries_its_update() {
    let r = ConfigResponse {
        data: ConfigResponseData {
            timestamp: "1".to_string(),
            microtimestamp: "1000".to_string(),
            bids: orders(&["1", "2"]),
            asks: orders(&["3"]),
        },
        channel: "order_book_ethbtc".to_string(),
        event: "data".to_string(),
    };
    let u = r.into_update();
    assert_eq!(u.bids.len(), 2);
    assert_eq!(u.asks[0].0[0], "3");
}
