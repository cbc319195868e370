//! Models of the two chain events the control loop consumes: new block heads
//! and newly observed pending transactions.
//!
//! The surrounding program subscribes to the node's streams and converts each
//! record into these plain values before handing it to the loop.

use vstd::prelude::*;

use crate::types::{Address, Word256};

verus! {

/// A new block head, with the fee fields the pipeline needs.
#[derive(Debug, Clone, Copy, PartialEq, Eq, Structural)]
pub struct NewBlock {
    pub block_number: u64,
    pub base_fee: u128,
    pub next_base_fee: u128,
}

/// How a transaction declares what it pays per gas unit. Any encoding other
/// than the legacy and fee-market ones is deliberately not admitted.
#[derive(Debug, Clone, Copy, PartialEq, Eq, Structural)]
pub enum FeeEncoding {
    Legacy { gas_price: u128 },
    FeeMarket { max_fee_per_gas: u128 },
    Other,
}

/// Whether the declared fee can cover the current base fee, so the
/// transaction could be mined in the next block.
pub open spec fn spec_gas_price_admissible(fee: FeeEncoding, base_fee: u128) -> bool {
    match fee {
        FeeEncoding::Legacy { gas_price } => gas_price >= base_fee,
        FeeEncoding::FeeMarket { max_fee_per_gas } => max_fee_per_gas >= base_fee,
        FeeEncoding::Other => false,
    }
}

/// The price per gas unit a sandwich simulation should charge the victim:
/// the declared legacy price or fee cap, zero for other encodings.
pub open spec fn spec_declared_gas_price(fee: FeeEncoding) -> u128 {
    match fee {
        FeeEncoding::Legacy { gas_price } => gas_price,
        FeeEncoding::FeeMarket { max_fee_per_gas } => max_fee_per_gas,
        FeeEncoding::Other => 0,
    }
}

pub fn gas_price_admissible(fee: FeeEncoding, base_fee: u128) -> (r: bool)
    ensures
        r == spec_gas_price_admissible(fee, base_fee),
{
    match fee {
        FeeEncoding::Legacy { gas_price } => gas_price >= base_fee,
        FeeEncoding::FeeMarket { max_fee_per_gas } => max_fee_per_gas >= base_fee,
        FeeEncoding::Other => false,
    }
}

pub fn declared_gas_price(fee: FeeEncoding) -> (r: u128)
    ensures
        r == spec_declared_gas_price(fee),
{
    match fee {
        FeeEncoding::Legacy { gas_price } => gas_price,
        FeeEncoding::FeeMarket { max_fee_per_gas } => max_fee_per_gas,
        FeeEncoding::Other => 0,
    }
}

/// The fields of a raw transaction the pipeline reads.
#[derive(Debug)]
pub struct TxRecord {
    pub hash: Word256,
    pub from: Address,
    pub to: Option<Address>,
    pub input: Vec<u8>,
    pub value: u128,
    pub fee: FeeEncoding,
    pub gas: u64,
}

/// A pending transaction as first observed; `added_block` is unset until the
/// tracker admits it.
#[derive(Debug)]
pub struct NewPendingTx {
    pub added_block: Option<u64>,
    pub tx: TxRecord,
}

/// One event of the fused control stream.
#[derive(Debug)]
pub enum Event {
    Block(NewBlock),
    PendingTx(NewPendingTx),
}

} // verus!
