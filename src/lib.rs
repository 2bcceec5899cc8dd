//! Central-limit order book core: arena-backed price ladders, a price-time
//! priority matching engine and a free/locked balance ledger.
pub mod arena;
pub mod book;
pub mod engine;
pub mod laws;
pub mod ledger;
pub mod list;
pub mod math;
pub mod orderbook;
pub mod types;
pub mod u256;
pub mod varint;
