//! Merging of exchange order books into one summary of the best levels.
//!
//! Prices and amounts are held as fixed-point integers with eighteen
//! fractional decimal digits (see `decimal`).

pub mod binance;
pub mod bitstamp;
pub mod data;
pub mod decimal;
pub mod error;
pub mod exchange;
pub mod exchange_connection;
pub mod grpc;
pub mod merger;
pub mod named;
pub mod server;
