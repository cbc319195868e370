//! Core decision pipeline of a sandwich-trading bot for two-token
//! constant-product pools: pending-transaction tracking, swap extraction and
//! classification, sandwich-candidate construction, profit selection, and
//! bundle deduplication.
//!
//! All chain access (RPC, tracing, signing, relay submission) is left to the
//! surrounding program; the library works on plain values and is verified.

pub mod abi;
pub mod evm;
pub mod pools;
pub mod appetizer;
pub mod simulation;
pub mod strategy;
pub mod streams;
pub mod types;
pub mod utils;
