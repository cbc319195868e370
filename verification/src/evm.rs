//! Snapshot of a victim transaction and the access-list shape shared by the
//! optimizer's two legs.

use vstd::prelude::*;

use crate::types::{Address, Word256};

verus! {

/// The fields of a pending transaction frozen for simulation, so later
/// tracker changes cannot disturb an in-flight optimization.
#[derive(Debug)]
pub struct VictimTx {
    pub tx_hash: Word256,
    pub from: Address,
    pub to: Address,
    pub data: Vec<u8>,
    pub value: u128,
    pub gas_price: u128,
    pub gas_limit: Option<u64>,
}

/// One pre-declared account with the storage slots a leg will touch.
#[derive(Debug)]
pub struct AccessListItem {
    pub address: Address,
    pub storage_keys: Vec<Word256>,
}

/// The accounts and slots a leg touches, declared ahead to lower its gas
/// cost.
pub type AccessList = Vec<AccessListItem>;

} // verus!
