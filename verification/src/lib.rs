//! A payments engine: exact fixed-point amounts, transaction records and
//! the state machine that applies them to per-client balances.

pub mod amount;
pub mod amount_order;
pub mod engine;
pub mod error;
pub mod holds;
pub mod transaction;
