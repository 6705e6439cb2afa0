//! The exchanges that order books come from.

pub mod binance;
pub mod bitstamp;
pub mod exchange_client;
