use sandwinch_rs::pools::{pair_created_topic, pool_from_pair_created, DexVariant, Pool, PoolRegistry};
use sandwinch_rs::types::{Address, Word256};
use sandwinch_rs::utils::{
    calculate_next_block_base_fee, is_main_currency, is_weth, predict_next_base_fee,
    return_main_and_target_currency, usdc, usdt, weth, MainCurrency,
};

fn addr(n: u32) -> Address {
    Address { hi: n, lo: n as u128 }
}

#[test]
fn recognizes_the_three_main_currencies() {
    assert!(is_main_currency(weth()));
    assert!(is_main_currency(usdt()));
    assert!(is_main_currency(usdc()));
    assert!(!is_main_currency(addr(7)));
    assert!(is_weth(weth()));
    assert!(!is_weth(usdt()));
}

#[test]
fn main_currency_ranking() {
    assert_eq!(MainCurrency::new(weth()).weight(), 3);
    assert_eq!(MainCurrency::new(usdt()).weight(), 2);
    assert_eq!(MainCurrency::new(usdc()).weight(), 1);
    assert_eq!(MainCurrency::new(addr(9)).weight(), 3);
    assert_eq!(MainCurrency::new(weth()).decimals(), 18);
    assert_eq!(MainCurrency::new(usdt()).decimals(), 6);
    assert_eq!(MainCurrency::new(usdc()).decimals(), 6);
    assert_eq!(MainCurrency::new(weth()).balance_slot(), 3);
    assert_eq!(MainCurrency::new(usdt()).balance_slot(), 2);
    assert_eq!(MainCurrency::new(usdc()).balance_slot(), 9);
}

#[test]
fn pair_normalization_puts_higher_priority_first() {
    let x = addr(0x1234);
    assert_eq!(return_main_and_target_currency(weth(), x), Some((weth(), x)));
    assert_eq!(return_main_and_target_currency(x, weth()), Some((weth(), x)));
    assert_eq!(return_main_and_target_currency(x, usdt()), Some((usdt(), x)));
    assert_eq!(
        return_main_and_target_currency(weth(), usdt()),
        Some((weth(), usdt()))
    );
    assert_eq!(
        return_main_and_target_currency(usdc(), weth()),
        Some((weth(), usdc()))
    );
    assert_eq!(
        return_main_and_target_currency(usdt(), usdc()),
        Some((usdt(), usdc()))
    );
}

#[test]
fn pair_normalization_refuses_unrecognized_pairs() {
    assert_eq!(return_main_and_target_currency(addr(1), addr(2)), None);
}

#[test]
fn base_fee_predictor_exact_values() {
    // at the gas target the fee is unchanged
    assert_eq!(predict_next_base_fee(15_000_000, 30_000_000, 100, 0), 100);
    // a full block raises the fee by an eighth
    assert_eq!(predict_next_base_fee(30_000_000, 30_000_000, 1000, 0), 1125);
    // an empty block lowers the fee by an eighth
    assert_eq!(predict_next_base_fee(0, 30_000_000, 1000, 0), 875);
    // the jitter is added on top
    assert_eq!(predict_next_base_fee(15_000_000, 30_000_000, 100, 8), 108);
    // a zero gas limit floors the target at one
    assert_eq!(predict_next_base_fee(0, 0, 800, 0), 700);
}

#[test]
fn base_fee_predictor_monotonic_samples() {
    let mut last = 0u128;
    for gas_used in [0u64, 5_000_000, 15_000_000, 20_000_000, 30_000_000] {
        let fee = predict_next_base_fee(gas_used, 30_000_000, 1_000_000, 0);
        assert!(fee >= last);
        last = fee;
    }
}

#[test]
fn randomized_base_fee_stays_within_jitter_range() {
    for _ in 0..50 {
        let base = predict_next_base_fee(22_000_000, 30_000_000, 41_000_000_000, 0);
        let r = calculate_next_block_base_fee(22_000_000, 30_000_000, 41_000_000_000);
        assert!(r >= base);
        assert!(r < base + 9);
    }
}

#[test]
fn dex_variant_version_number() {
    assert_eq!(DexVariant::UniswapV2.version_num(), 2);
}

#[test]
fn pool_registry_resolves_known_pools_only() {
    let pool = Pool {
        id: 1,
        address: addr(100),
        version: DexVariant::UniswapV2,
        token0: weth(),
        token1: addr(200),
        fee: 300,
        block_number: 17_000_000,
        timestamp: 1_680_000_000,
    };
    let registry = PoolRegistry::new(vec![pool]);
    let found = registry.resolve_pool(addr(100)).expect("known pool");
    assert_eq!(found.token0, weth());
    assert_eq!(found.token1, addr(200));
    assert!(registry.resolve_pool(addr(101)).is_none());
}

#[test]
fn word_selector_takes_leading_four_bytes() {
    let w = Word256 {
        hi: 0xd78ad95f_00000000_00000000_00000000,
        lo: 0,
    };
    assert_eq!(w.selector(), 0xd78ad95f);
    assert!(!w.is_zero());
    let z = Word256 { hi: 0, lo: 0 };
    assert!(z.is_zero());
}

#[test]
fn pair_created_log_decodes_to_a_pool() {
    let token0 = Word256 { hi: 0x11, lo: 0x22 };
    let token1 = Word256 { hi: 0x33, lo: 0x44 };
    let topics = vec![pair_created_topic(), token0, token1];
    // first data word: the pair address, left-padded; second: the pair count
    let mut data = vec![0u8; 12];
    data.extend_from_slice(&0x0506u32.to_be_bytes());
    data.extend_from_slice(&0x0708u128.to_be_bytes());
    data.extend_from_slice(&[0u8; 31]);
    data.push(9);
    assert_eq!(data.len(), 64);
    let pool = pool_from_pair_created(&topics, &data, 17_000_000, 1_680_000_000).expect("decodes");
    assert_eq!(pool.id, -1);
    assert_eq!(pool.address, Address { hi: 0x0506, lo: 0x0708 });
    assert_eq!(pool.token0, Address { hi: 0x11, lo: 0x22 });
    assert_eq!(pool.token1, Address { hi: 0x33, lo: 0x44 });
    assert_eq!(pool.fee, 300);
    assert_eq!(pool.version, DexVariant::UniswapV2);
    assert_eq!(pool.block_number, 17_000_000);
    assert_eq!(pool.timestamp, 1_680_000_000);
}

#[test]
fn pair_created_decode_skips_foreign_and_malformed_logs() {
    let other_topic = Word256 { hi: 1, lo: 2 };
    let good_data = vec![0u8; 64];
    // a different event
    assert!(pool_from_pair_created(
        &vec![other_topic, other_topic, other_topic],
        &good_data,
        1,
        1
    )
    .is_none());
    // too few topics
    assert!(pool_from_pair_created(&vec![pair_created_topic()], &good_data, 1, 1).is_none());
    // truncated data
    assert!(pool_from_pair_created(
        &vec![pair_created_topic(), other_topic, other_topic],
        &vec![0u8; 63],
        1,
        1
    )
    .is_none());
}

#[test]
fn pool_cache_row_renders_hex_addresses()
{
    let pool = Pool {
        id: 5,
        address: Address { hi: 0x0506, lo: 0x0708 },
        version: DexVariant::UniswapV2,
        token0: weth(),
        token1: Address { hi: 0xffffffff, lo: 0xffffffffffffffffffffffffffffffff },
        fee: 300,
        block_number: 42,
        timestamp: 43,
    };
    let row = pool.cache_row();
    assert_eq!(row.0, 5);
    assert_eq!(row.1, "0x0000050600000000000000000000000000000708");
    assert_eq!(row.2, 2);
    assert_eq!(row.3, "0xc02aaa39b223fe8d0a0e5c4f27ead9083c756cc2");
    assert_eq!(row.4, "0xffffffffffffffffffffffffffffffffffffffff");
    assert_eq!(row.5, 300);
    assert_eq!(row.6, 42);
    assert_eq!(row.7, 43);
}
