//! Pools known to the bot and the registry resolving a pool address to its
//! two tokens and AMM variant.

use vstd::prelude::*;

use crate::types::{Address, Word256};

verus! {

#[derive(Debug, Clone, Copy, PartialEq, Eq, Structural)]
pub enum DexVariant {
    UniswapV2,
}

impl DexVariant {
    pub fn version_num(&self) -> (v: u8)
        ensures
            v == 2,
    {
        match self {
            DexVariant::UniswapV2 => 2,
        }
    }
}

/// A two-token constant-product pool.
#[derive(Debug, Clone, Copy, PartialEq, Eq, Structural)]
pub struct Pool {
    pub id: i64,
    pub address: Address,
    pub version: DexVariant,
    pub token0: Address,
    pub token1: Address,
    pub fee: u32,
    pub block_number: u64,
    pub timestamp: u64,
}

/// First pool in `pools` whose address is `a`, if any.
pub open spec fn spec_find_pool(pools: Seq<Pool>, a: Address) -> Option<Pool>
    decreases pools.len(),
{
    if pools.len() == 0 {
        None
    } else if pools[0].address == a {
        Some(pools[0])
    } else {
        spec_find_pool(pools.drop_first(), a)
    }
}

impl Pool {
    /// The pool as one row of the on-disk pool cache: id, hex addresses,
    /// numeric variant, fee and provenance.
    pub fn cache_row(&self) -> (r: (i64, String, i32, String, String, u32, u64, u64))
        ensures
            r.0 == self.id,
            r.1@ == crate::abi::spec_address_hex(self.address),
            r.2 == 2,
            r.3@ == crate::abi::spec_address_hex(self.token0),
            r.4@ == crate::abi::spec_address_hex(self.token1),
            r.5 == self.fee,
            r.6 == self.block_number,
            r.7 == self.timestamp,
    {
        (
            self.id,
            crate::abi::address_to_hex(&self.address),
            self.version.version_num() as i32,
            crate::abi::address_to_hex(&self.token0),
            crate::abi::address_to_hex(&self.token1),
            self.fee,
            self.block_number,
            self.timestamp,
        )
    }
}

/// Read-only table of the pools the bot sandwiches against, filled once at
/// startup by the pool loader.
pub struct PoolRegistry {
    pub pools: Vec<Pool>,
}

impl PoolRegistry {
    pub fn new(pools: Vec<Pool>) -> (r: PoolRegistry)
        ensures
            r.pools@ == pools@,
    {
        PoolRegistry { pools }
    }

    /// Resolves a pool address to the pool's record: the first entry with
    /// that address, or none for an unknown pool.
    pub fn resolve_pool(&self, address: Address) -> (r: Option<Pool>)
        ensures
            r == spec_find_pool(self.pools@, address),
    {
        let n = self.pools.len();
        let mut i: usize = 0;
        proof {
            assert(self.pools@.skip(0) =~= self.pools@);
        }
        while i < n
            invariant
                n == self.pools@.len(),
                i <= n,
                spec_find_pool(self.pools@, address) == spec_find_pool(
                    self.pools@.skip(i as int),
                    address,
                ),
            decreases n - i,
        {
            if self.pools[i].address == address {
                proof {
                    assert(self.pools@.skip(i as int)[0] == self.pools@[i as int]);
                }
                return Some(self.pools[i]);
            }
            proof {
                assert(self.pools@.skip(i as int).drop_first() =~= self.pools@.skip(i + 1));
            }
            i = i + 1;
        }
        proof {
            assert(self.pools@.skip(n as int).len() == 0);
        }
        None
    }
}

/// Full event-signature topic of the pair-created event a factory emits for
/// every new pool.
pub open spec fn spec_pair_created_topic() -> Word256 {
    Word256 { hi: 0x0d3648bd0f6ba80134a33ba9275ac585, lo: 0xd9d315f0ad8355cddefde31afa28d0e9 }
}

pub fn pair_created_topic() -> (r: Word256)
    ensures
        r == spec_pair_created_topic(),
{
    Word256 { hi: 0x0d3648bd0f6ba80134a33ba9275ac585, lo: 0xd9d315f0ad8355cddefde31afa28d0e9 }
}

/// The address carried in a topic word: its rightmost 20 bytes.
pub open spec fn spec_topic_address(w: Word256) -> Address {
    Address { hi: (w.hi % 0x1_0000_0000) as u32, lo: w.lo }
}

pub fn topic_address(w: Word256) -> (r: Address)
    ensures
        r == spec_topic_address(w),
{
    Address { hi: (w.hi % 0x1_0000_0000) as u32, lo: w.lo }
}

/// How a pair-created log decodes to a pool record: the two indexed topics
/// carry the tokens, the first data word carries the pair address; the fee is
/// the pool kind's fixed 0.3%, and the record is not yet persisted (id -1).
/// A log without the three topics or the 64 data bytes is malformed and
/// yields nothing.
pub open spec fn spec_pool_from_pair_created(
    topics: Seq<Word256>,
    data: Seq<u8>,
    block_number: u64,
    timestamp: u64,
) -> Option<Pool> {
    if topics.len() >= 3 && topics[0] == spec_pair_created_topic() && data.len() == 64 {
        Some(
            Pool {
                id: -1i64,
                address: crate::abi::spec_address_at(data, 0),
                version: DexVariant::UniswapV2,
                token0: spec_topic_address(topics[1]),
                token1: spec_topic_address(topics[2]),
                fee: 300,
                block_number,
                timestamp,
            },
        )
    } else {
        None
    }
}

/// Decodes one pair-created log into a pool record, skipping logs under any
/// other topic and malformed ones.
pub fn pool_from_pair_created(
    topics: &Vec<Word256>,
    data: &Vec<u8>,
    block_number: u64,
    timestamp: u64,
) -> (r: Option<Pool>)
    ensures
        r == spec_pool_from_pair_created(topics@, data@, block_number, timestamp),
{
    if topics.len() >= 3 && data.len() == 64 && topics[0] == pair_created_topic() {
        Some(
            Pool {
                id: -1i64,
                address: crate::abi::address_at(data, 0),
                version: DexVariant::UniswapV2,
                token0: topic_address(topics[1]),
                token1: topic_address(topics[2]),
                fee: 300,
                block_number,
                timestamp,
            },
        )
    } else {
        None
    }
}

} // verus!
