//! A per-symbol limit order book with price-time priority matching, and a
//! registry of books keyed by symbol.
//!
//! Prices are integer tick keys (price times `TICKS_PER_UNIT`, truncated) and
//! quantities are integer lots (units times `TICKS_PER_UNIT`, truncated), so
//! that every ordering and equality in the engine is exact.

pub mod order;
pub mod queue;
pub mod book;
pub mod engine;
pub mod laws;

pub use order::{Order, OrderSide, OrderType, Trade, TICKS_PER_UNIT};
pub use book::{DepthLevel, OrderBook};
pub use engine::{BookSnapshot, EngineError, EngineStats, TradingEngine};
