//! Pooled-deposit lottery ledger: share accounting, ticket registry,
//! prize draws and the unbonding claim queue.
pub mod admin;
pub mod decimal;
pub mod deposit;
pub mod error;
pub mod laws;
pub mod prize_strategy;
pub mod sequence;
pub mod state;
pub mod withdraw;
