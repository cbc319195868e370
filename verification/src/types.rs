//! Plain-value models of the chain-level scalar types the pipeline works on:
//! 160-bit addresses and 256-bit words (hashes, topics, unsigned amounts).

use vstd::prelude::*;

verus! {

/// A 160-bit account or contract address, split big-endian into its leading
/// 4 bytes (`hi`) and trailing 16 bytes (`lo`).
#[derive(Clone, Copy, Debug, PartialEq, Eq, Structural, Hash)]
pub struct Address {
    pub hi: u32,
    pub lo: u128,
}

impl Address {
    /// The address as a mathematical integer.
    pub open spec fn val(self) -> int {
        self.hi * 0x1_0000_0000_0000_0000_0000_0000_0000_0000 + self.lo
    }

    /// The all-zero address, used where a raw record carried no
    /// recipient.
    pub fn zero() -> (a: Address)
        ensures
            a == (Address { hi: 0u32, lo: 0u128 }),
    {
        Address { hi: 0, lo: 0 }
    }
}

/// A 256-bit word -- transaction hash, log topic or unsigned integer -- split
/// big-endian into two 128-bit halves.
#[derive(Clone, Copy, Debug, PartialEq, Eq, Structural, Hash)]
pub struct Word256 {
    pub hi: u128,
    pub lo: u128,
}

impl Word256 {
    /// The word as a mathematical integer.
    pub open spec fn val(self) -> int {
        self.hi * 0x1_0000_0000_0000_0000_0000_0000_0000_0000 + self.lo
    }

    /// The leading 4 bytes of the word, as they identify an event kind in a
    /// log topic or a function in calldata.
    pub open spec fn spec_selector(self) -> u32 {
        (self.hi >> 96) as u32
    }

    pub fn selector(&self) -> (r: u32)
        ensures
            r == self.spec_selector(),
    {
        proof {
            let h = self.hi;
            assert(h >> 96 < 0x1_0000_0000) by (bit_vector);
        }
        (self.hi >> 96) as u32
    }

    pub fn is_zero(&self) -> (r: bool)
        ensures
            r == (self.val() == 0),
    {
        self.hi == 0 && self.lo == 0
    }
}

} // verus!
