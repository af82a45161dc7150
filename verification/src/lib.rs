//! A single-market limit order matching core.
//!
//! The book keeps resting limit orders grouped by exact price level and
//! executes incoming market orders against them: best price first, and
//! strictly first-in-first-out within a price level.

pub mod engine;
pub mod limit;
pub mod order;
pub mod orderbook;

pub use engine::MatchingEngine;
pub use engine::TradingPair;
pub use limit::Limit;
pub use order::BidOrAsk;
pub use order::Order;
pub use order::Quantity;
pub use orderbook::OrderBook;
