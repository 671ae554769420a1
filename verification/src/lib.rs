//! Trade execution and fill handling for a prediction-market client.
pub mod book;
pub mod decimal;
pub mod engine;
pub mod errors;
pub mod execution;
pub mod ledger;
pub mod math;
pub mod order_id;
pub mod processor;
pub mod quote;
pub mod slippage;
pub mod stamp;
pub mod totals;
pub mod trace;
pub mod types;
