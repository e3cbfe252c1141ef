//! A single-instrument limit order book with price-time priority matching.
pub mod laws;
pub mod model;
pub mod order_book;
pub mod side_book;
pub mod types;

pub use order_book::{OrderBook, SequenceSource};
pub use types::{Order, PriceLevel, Side, Trade};
