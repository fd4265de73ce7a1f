//! A market-making engine: a price-time-priority limit order book, the
//! matching engine that feeds it, and the strategy that replays its feed.
pub mod account_laws;
pub mod book_laws;
pub mod decision_laws;
pub mod engine_laws;
pub mod exchange_laws;
pub mod feed;
pub mod fill_laws;
pub mod ipc;
pub mod levels;
pub mod market_sim;
pub mod matching_laws;
pub mod orderbook;
pub mod queue_laws;
pub mod replay_laws;
pub mod ringbuffer;
pub mod risk;
pub mod strategy;
pub mod strategy_laws;
pub mod types;
