//! Order books, slippage protection and atomic multi-leg execution.
pub mod engine;
pub mod orderbook;
pub mod slippage;
pub mod types;
