//! Main-currency classification and the next-block base-fee predictor.
//!
//! The pipeline only sandwiches pools quoted in one of three recognized main
//! currencies (the wrapped native asset and two stables), ranked by a fixed
//! importance weight.

use vstd::prelude::*;
use vstd::arithmetic::div_mod::{
    lemma_div_is_ordered, lemma_div_multiples_vanish, lemma_div_nonincreasing,
    lemma_div_pos_is_pos,
};
use vstd::arithmetic::mul::{lemma_mul_inequality, lemma_mul_upper_bound};

use crate::types::Address;

verus! {

pub const WETH_DECIMALS: u8 = 18;
pub const USDC_DECIMALS: u8 = 6;
pub const WETH_BALANCE_SLOT: i32 = 3;
pub const USDT_BALANCE_SLOT: i32 = 2;
pub const USDC_BALANCE_SLOT: i32 = 9;

/// The wrapped native asset.
pub open spec fn spec_weth() -> Address {
    Address { hi: 0xc02aaa39, lo: 0xb223fe8d0a0e5c4f27ead9083c756cc2 }
}

/// The first recognized stable asset.
pub open spec fn spec_usdt() -> Address {
    Address { hi: 0xdac17f95, lo: 0x8d2ee523a2206206994597c13d831ec7 }
}

/// The second recognized stable asset.
pub open spec fn spec_usdc() -> Address {
    Address { hi: 0xa0b86991, lo: 0xc6218b36c1d19d4a2e9eb0ce3606eb48 }
}

pub fn weth() -> (a: Address)
    ensures
        a == spec_weth(),
{
    Address { hi: 0xc02aaa39, lo: 0xb223fe8d0a0e5c4f27ead9083c756cc2 }
}

pub fn usdt() -> (a: Address)
    ensures
        a == spec_usdt(),
{
    Address { hi: 0xdac17f95, lo: 0x8d2ee523a2206206994597c13d831ec7 }
}

pub fn usdc() -> (a: Address)
    ensures
        a == spec_usdc(),
{
    Address { hi: 0xa0b86991, lo: 0xc6218b36c1d19d4a2e9eb0ce3606eb48 }
}

pub open spec fn spec_is_main_currency(a: Address) -> bool {
    a == spec_weth() || a == spec_usdt() || a == spec_usdc()
}

pub fn is_main_currency(token_address: Address) -> (r: bool)
    ensures
        r == spec_is_main_currency(token_address),
{
    token_address == weth() || token_address == usdt() || token_address == usdc()
}

pub fn is_weth(token_address: Address) -> (r: bool)
    ensures
        r == (token_address == spec_weth()),
{
    token_address == weth()
}

/// The recognized main currencies, ranked by importance. `Default` stands for
/// an unrecognized address and is treated like the wrapped native asset.
#[derive(Debug, Clone, Copy, PartialEq, Eq, Structural)]
pub enum MainCurrency {
    WETH,
    USDT,
    USDC,
    Default,
}

pub open spec fn spec_main_currency_of(a: Address) -> MainCurrency {
    if a == spec_weth() {
        MainCurrency::WETH
    } else if a == spec_usdt() {
        MainCurrency::USDT
    } else if a == spec_usdc() {
        MainCurrency::USDC
    } else {
        MainCurrency::Default
    }
}

pub open spec fn spec_weight(mc: MainCurrency) -> u8 {
    match mc {
        MainCurrency::WETH => 3,
        MainCurrency::USDT => 2,
        MainCurrency::USDC => 1,
        MainCurrency::Default => 3,
    }
}

impl MainCurrency {
    pub fn new(address: Address) -> (mc: MainCurrency)
        ensures
            mc == spec_main_currency_of(address),
    {
        if address == weth() {
            MainCurrency::WETH
        } else if address == usdt() {
            MainCurrency::USDT
        } else if address == usdc() {
            MainCurrency::USDC
        } else {
            MainCurrency::Default
        }
    }

    /// Importance weight: the wrapped native asset outranks the stables.
    pub fn weight(&self) -> (w: u8)
        ensures
            w == spec_weight(*self),
    {
        match self {
            MainCurrency::WETH => 3,
            MainCurrency::USDT => 2,
            MainCurrency::USDC => 1,
            MainCurrency::Default => 3,
        }
    }

    pub fn decimals(&self) -> (d: u8)
        ensures
            d == match *self {
                MainCurrency::WETH => WETH_DECIMALS,
                MainCurrency::USDT => USDC_DECIMALS,
                MainCurrency::USDC => USDC_DECIMALS,
                MainCurrency::Default => WETH_DECIMALS,
            },
    {
        match self {
            MainCurrency::WETH => WETH_DECIMALS,
            MainCurrency::USDT => USDC_DECIMALS,
            MainCurrency::USDC => USDC_DECIMALS,
            MainCurrency::Default => WETH_DECIMALS,
        }
    }

    /// Storage slot of the currency's balance mapping, used to override
    /// balances when simulating against substituted state.
    pub fn balance_slot(&self) -> (s: i32)
        ensures
            s == match *self {
                MainCurrency::WETH => WETH_BALANCE_SLOT,
                MainCurrency::USDT => USDT_BALANCE_SLOT,
                MainCurrency::USDC => USDC_BALANCE_SLOT,
                MainCurrency::Default => WETH_BALANCE_SLOT,
            },
    {
        match self {
            MainCurrency::WETH => WETH_BALANCE_SLOT,
            MainCurrency::USDT => USDT_BALANCE_SLOT,
            MainCurrency::USDC => USDC_BALANCE_SLOT,
            MainCurrency::Default => WETH_BALANCE_SLOT,
        }
    }
}

/// Normalizes a pool's token pair to (main currency, target token): the
/// higher-priority main currency comes first; a pair without any recognized
/// main currency is not sandwichable.
pub open spec fn spec_return_main_and_target_currency(token0: Address, token1: Address) -> Option<
    (Address, Address),
> {
    if !spec_is_main_currency(token0) && !spec_is_main_currency(token1) {
        None
    } else if spec_is_main_currency(token0) && spec_is_main_currency(token1) {
        if spec_weight(spec_main_currency_of(token0)) > spec_weight(spec_main_currency_of(token1)) {
            Some((token0, token1))
        } else {
            Some((token1, token0))
        }
    } else if spec_is_main_currency(token0) {
        Some((token0, token1))
    } else {
        Some((token1, token0))
    }
}

pub fn return_main_and_target_currency(token0: Address, token1: Address) -> (r: Option<
    (Address, Address),
>)
    ensures
        r == spec_return_main_and_target_currency(token0, token1),
{
    let token0_supported = is_main_currency(token0);
    let token1_supported = is_main_currency(token1);
    if !token0_supported && !token1_supported {
        return None;
    }
    if token0_supported && token1_supported {
        let mc0 = MainCurrency::new(token0);
        let mc1 = MainCurrency::new(token1);
        let token0_weight = mc0.weight();
        let token1_weight = mc1.weight();
        if token0_weight > token1_weight {
            return Some((token0, token1));
        } else {
            return Some((token1, token0));
        }
    }
    if token0_supported {
        Some((token0, token1))
    } else {
        Some((token1, token0))
    }
}

/// Law: pair normalization is total over pairs holding a recognized main
/// currency, puts the higher-priority main currency first, refuses pairs
/// without one, and does not depend on the order of its two arguments.
pub proof fn lemma_return_main_and_target_total_and_symmetric(token0: Address, token1: Address)
    ensures
        !spec_is_main_currency(token0) && !spec_is_main_currency(token1)
            <==> spec_return_main_and_target_currency(token0, token1) is None,
        spec_is_main_currency(token0) || spec_is_main_currency(token1) ==> {
            let (m, t) = spec_return_main_and_target_currency(token0, token1)->Some_0;
            &&& spec_is_main_currency(m)
            &&& (m == token0 && t == token1) || (m == token1 && t == token0)
            &&& spec_is_main_currency(t) ==> spec_weight(spec_main_currency_of(m)) >= spec_weight(
                spec_main_currency_of(t),
            )
        },
        spec_return_main_and_target_currency(token0, token1)
            == spec_return_main_and_target_currency(token1, token0),
{
}

/// Target gas use of a block: half the gas limit, floored at one.
pub open spec fn spec_target_gas_used(gas_limit: u64) -> int {
    if gas_limit / 2 == 0 {
        1
    } else {
        gas_limit as int / 2
    }
}

/// Next-block base fee under the protocol's fee-adjustment rule, plus a small
/// jitter: the fee moves towards usage by an eighth of the relative deviation
/// of gas used from the target.
pub open spec fn spec_next_base_fee(
    gas_used: u64,
    gas_limit: u64,
    base_fee_per_gas: u128,
    jitter: u128,
) -> int {
    let target = spec_target_gas_used(gas_limit);
    if gas_used > target {
        base_fee_per_gas + base_fee_per_gas * (gas_used - target) / target / 8 + jitter
    } else {
        base_fee_per_gas - base_fee_per_gas * (target - gas_used) / target / 8 + jitter
    }
}

/// Deterministic part of the base-fee predictor.
pub fn predict_next_base_fee(
    gas_used: u64,
    gas_limit: u64,
    base_fee_per_gas: u128,
    jitter: u128,
) -> (r: u128)
    requires
        base_fee_per_gas < 0x1_0000_0000_0000_0000,
        jitter < 9,
    ensures
        r == spec_next_base_fee(gas_used, gas_limit, base_fee_per_gas, jitter),
{
    let target0: u64 = gas_limit / 2;
    let target: u64 = if target0 == 0 {
        1
    } else {
        target0
    };
    if gas_used > target {
        let diff: u128 = (gas_used - target) as u128;
        proof {
            lemma_mul_upper_bound(
                base_fee_per_gas as int,
                0xffff_ffff_ffff_ffff,
                diff as int,
                0xffff_ffff_ffff_ffff,
            );
        }
        let prod: u128 = base_fee_per_gas * diff;
        proof {
            lemma_div_nonincreasing(prod as int, target as int);
            lemma_div_pos_is_pos(prod as int, target as int);
        }
        let quot: u128 = prod / (target as u128);
        proof {
            lemma_div_nonincreasing(quot as int, 8);
            lemma_div_pos_is_pos(quot as int, 8);
        }
        let delta: u128 = quot / 8;
        base_fee_per_gas + delta + jitter
    } else {
        let diff: u128 = (target - gas_used) as u128;
        proof {
            lemma_mul_inequality(diff as int, target as int, base_fee_per_gas as int);
            lemma_mul_upper_bound(
                base_fee_per_gas as int,
                0xffff_ffff_ffff_ffff,
                diff as int,
                0xffff_ffff_ffff_ffff,
            );
        }
        let prod: u128 = base_fee_per_gas * diff;
        proof {
            lemma_div_is_ordered(
                prod as int,
                target as int * base_fee_per_gas as int,
                target as int,
            );
            lemma_div_multiples_vanish(base_fee_per_gas as int, target as int);
        }
        let quot: u128 = prod / (target as u128);
        proof {
            lemma_div_nonincreasing(quot as int, 8);
            lemma_div_pos_is_pos(quot as int, 8);
        }
        let delta: u128 = quot / 8;
        base_fee_per_gas - delta + jitter
    }
}

/// Relies on rand::thread_rng and rand::Rng::gen_range: a value drawn from
/// the half-open range 0..9, hence at most 8. Nothing else is assumed of the
/// draw.
#[verifier::external_body]
fn sample_fee_jitter() -> (r: u128)
    ensures
        r < 9,
{
    rand::Rng::gen_range(&mut rand::thread_rng(), 0..9u128)
}

/// Predicts the next block's base fee from the head block's gas use, adding a
/// small random jitter of at most 8 wei to avoid exact ties with competing
/// searchers.
pub fn calculate_next_block_base_fee(gas_used: u64, gas_limit: u64, base_fee_per_gas: u128) -> (r:
    u128)
    requires
        base_fee_per_gas < 0x1_0000_0000_0000_0000,
    ensures
        exists|j: u128| j < 9 && r == spec_next_base_fee(gas_used, gas_limit, base_fee_per_gas, j),
        spec_next_base_fee(gas_used, gas_limit, base_fee_per_gas, 0) <= r
            < spec_next_base_fee(gas_used, gas_limit, base_fee_per_gas, 0) + 9,
{
    let jitter = sample_fee_jitter();
    let r = predict_next_base_fee(gas_used, gas_limit, base_fee_per_gas, jitter);
    proof {
        assert(r == spec_next_base_fee(gas_used, gas_limit, base_fee_per_gas, jitter));
    }
    r
}

/// Law: holding gas limit, base fee and jitter fixed, the predicted next base
/// fee never decreases as gas used increases.
pub proof fn lemma_next_base_fee_monotonic(
    gas_used1: u64,
    gas_used2: u64,
    gas_limit: u64,
    base_fee_per_gas: u128,
    jitter: u128,
)
    requires
        gas_used1 <= gas_used2,
    ensures
        spec_next_base_fee(gas_used1, gas_limit, base_fee_per_gas, jitter) <= spec_next_base_fee(
            gas_used2,
            gas_limit,
            base_fee_per_gas,
            jitter,
        ),
{
    let target = spec_target_gas_used(gas_limit);
    let bf = base_fee_per_gas as int;
    if gas_used2 <= target {
        lemma_mul_inequality(target - gas_used2, target - gas_used1, bf);
        assert(bf * (target - gas_used2) == (target - gas_used2) * bf) by (nonlinear_arith);
        assert(bf * (target - gas_used1) == (target - gas_used1) * bf) by (nonlinear_arith);
        lemma_div_is_ordered(bf * (target - gas_used2), bf * (target - gas_used1), target);
        lemma_div_is_ordered(
            bf * (target - gas_used2) / target,
            bf * (target - gas_used1) / target,
            8,
        );
    } else if gas_used1 > target {
        lemma_mul_inequality(gas_used1 - target, gas_used2 - target, bf);
        assert(bf * (gas_used1 - target) == (gas_used1 - target) * bf) by (nonlinear_arith);
        assert(bf * (gas_used2 - target) == (gas_used2 - target) * bf) by (nonlinear_arith);
        lemma_div_is_ordered(bf * (gas_used1 - target), bf * (gas_used2 - target), target);
        lemma_div_is_ordered(
            bf * (gas_used1 - target) / target,
            bf * (gas_used2 - target) / target,
            8,
        );
    } else {
        lemma_mul_inequality(0, target - gas_used1, bf);
        assert(bf * (target - gas_used1) == (target - gas_used1) * bf) by (nonlinear_arith);
        lemma_div_pos_is_pos(bf * (target - gas_used1), target);
        lemma_div_pos_is_pos(bf * (target - gas_used1) / target, 8);
        lemma_mul_inequality(0, gas_used2 - target, bf);
        assert(bf * (gas_used2 - target) == (gas_used2 - target) * bf) by (nonlinear_arith);
        lemma_div_pos_is_pos(bf * (gas_used2 - target), target);
        lemma_div_pos_is_pos(bf * (gas_used2 - target) / target, 8);
    }
}

} // verus!
