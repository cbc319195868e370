use sandwinch_rs::appetizer::appetizer;
use sandwinch_rs::evm::VictimTx;
use sandwinch_rs::pools::{DexVariant, Pool, PoolRegistry};
use sandwinch_rs::simulation::{
    choose_optimal, extract_logs, extract_swap_info, probe_amounts, BatchSandwich, CallFrame,
    CallLogFrame, PendingTxInfo, Sandwich, SimulatedSandwich, SwapDirection, SwapInfo,
};
use sandwinch_rs::strategy::{BundleHistory, PendingTxTracker};
use sandwinch_rs::streams::{FeeEncoding, NewBlock, NewPendingTx, TxRecord};
use sandwinch_rs::types::{Address, Word256};
use sandwinch_rs::utils::weth;

fn addr(n: u32) -> Address {
    Address { hi: n, lo: n as u128 }
}

fn hash(n: u32) -> Word256 {
    // the leading 4 bytes (the bundle-id prefix) are `n`
    Word256 {
        hi: (n as u128) << 96,
        lo: n as u128,
    }
}

fn topic(selector: u32) -> Word256 {
    Word256 {
        hi: (selector as u128) << 96,
        lo: 7,
    }
}

fn word_bytes(x: u128) -> Vec<u8> {
    let mut v = vec![0u8; 16];
    v.extend_from_slice(&x.to_be_bytes());
    v
}

fn swap_data(in0: u128, in1: u128, out0: u128, out1: u128) -> Vec<u8> {
    let mut v = Vec::new();
    v.extend_from_slice(&word_bytes(in0));
    v.extend_from_slice(&word_bytes(in1));
    v.extend_from_slice(&word_bytes(out0));
    v.extend_from_slice(&word_bytes(out1));
    v
}

fn swap_log(pool: Address, data: Vec<u8>) -> CallLogFrame {
    CallLogFrame {
        address: Some(pool),
        topics: Some(vec![topic(0xd78ad95f), hash(0xaaaa)]),
        data: Some(data),
    }
}

fn weth_pool(pool_addr: Address, token_x: Address) -> PoolRegistry {
    PoolRegistry::new(vec![Pool {
        id: 1,
        address: pool_addr,
        version: DexVariant::UniswapV2,
        token0: weth(),
        token1: token_x,
        fee: 300,
        block_number: 17_000_000,
        timestamp: 1_680_000_000,
    }])
}

fn tx_record(h: Word256, fee: FeeEncoding) -> TxRecord {
    TxRecord {
        hash: h,
        from: addr(0xf00d),
        to: Some(addr(0xbeef)),
        input: vec![0xde, 0xad],
        value: 0,
        fee,
        gas: 210_000,
    }
}

fn pending(h: Word256, fee: FeeEncoding) -> NewPendingTx {
    NewPendingTx {
        added_block: None,
        tx: tx_record(h, fee),
    }
}

fn block(number: u64, base_fee: u128) -> NewBlock {
    NewBlock {
        block_number: number,
        base_fee,
        next_base_fee: base_fee,
    }
}

fn candidate(h: Word256, amount_in: u128) -> Sandwich {
    Sandwich {
        amount_in,
        swap_info: SwapInfo {
            tx_hash: h,
            target_pair: addr(0x77),
            main_currency: weth(),
            target_token: addr(0x88),
            version: 2,
            token0_is_main: true,
            direction: SwapDirection::Buy,
        },
        victim_tx: VictimTx {
            tx_hash: h,
            from: addr(1),
            to: addr(2),
            data: vec![],
            value: 0,
            gas_price: 0,
            gas_limit: Some(100_000),
        },
        optimized_sandwich: None,
    }
}

#[test]
fn extraction_classifies_a_weth_buy() {
    // a pending transaction swapping 5 WETH for TOKEN_X on a (WETH, TOKEN_X)
    // pool: amount0In = 5 WETH flows in, TOKEN_X flows out
    let pool_addr = addr(0x700);
    let token_x = addr(0x800);
    let registry = weth_pool(pool_addr, token_x);
    let five_weth = 5_000_000_000_000_000_000u128;
    let frame = CallFrame {
        logs: vec![],
        calls: vec![CallFrame {
            logs: vec![swap_log(pool_addr, swap_data(five_weth, 0, 0, 123_456))],
            calls: vec![],
        }],
    };
    let h = hash(0x51);
    let swaps = extract_swap_info(h, Some(frame), &registry);
    assert_eq!(swaps.len(), 1);
    assert_eq!(swaps[0].tx_hash, h);
    assert_eq!(swaps[0].target_pair, pool_addr);
    assert_eq!(swaps[0].main_currency, weth());
    assert_eq!(swaps[0].target_token, token_x);
    assert_eq!(swaps[0].version, 2);
    assert!(swaps[0].token0_is_main);
    assert_eq!(swaps[0].direction, SwapDirection::Buy);
}

#[test]
fn extraction_classifies_a_weth_sell() {
    // TOKEN_X flows in, WETH flows out: the victim sells the target token
    let pool_addr = addr(0x700);
    let registry = weth_pool(pool_addr, addr(0x800));
    let frame = CallFrame {
        logs: vec![swap_log(pool_addr, swap_data(0, 999, 777, 0))],
        calls: vec![],
    };
    let swaps = extract_swap_info(hash(0x52), Some(frame), &registry);
    assert_eq!(swaps.len(), 1);
    assert_eq!(swaps[0].direction, SwapDirection::Sell);
}

#[test]
fn extraction_skips_unknown_pools_and_malformed_logs() {
    let pool_addr = addr(0x700);
    let registry = weth_pool(pool_addr, addr(0x800));
    let unknown_pool = swap_log(addr(0x9999), swap_data(1, 0, 0, 1));
    let short_data = swap_log(pool_addr, vec![0u8; 127]);
    let missing_address = CallLogFrame {
        address: None,
        topics: Some(vec![topic(0xd78ad95f), hash(1)]),
        data: Some(swap_data(1, 0, 0, 1)),
    };
    let wrong_selector = CallLogFrame {
        address: Some(pool_addr),
        topics: Some(vec![topic(0x11223344), hash(1)]),
        data: Some(swap_data(1, 0, 0, 1)),
    };
    let single_topic = CallLogFrame {
        address: Some(pool_addr),
        topics: Some(vec![topic(0xd78ad95f)]),
        data: Some(swap_data(1, 0, 0, 1)),
    };
    let frame = CallFrame {
        logs: vec![
            unknown_pool,
            short_data,
            missing_address,
            wrong_selector,
            single_topic,
        ],
        calls: vec![],
    };
    let swaps = extract_swap_info(hash(0x53), Some(frame), &registry);
    assert_eq!(swaps.len(), 0);
}

#[test]
fn extraction_skips_pairs_without_a_main_currency() {
    let pool_addr = addr(0x700);
    let registry = PoolRegistry::new(vec![Pool {
        id: 1,
        address: pool_addr,
        version: DexVariant::UniswapV2,
        token0: addr(0x111),
        token1: addr(0x222),
        fee: 300,
        block_number: 1,
        timestamp: 1,
    }]);
    let frame = CallFrame {
        logs: vec![swap_log(pool_addr, swap_data(1, 0, 0, 1))],
        calls: vec![],
    };
    let swaps = extract_swap_info(hash(0x54), Some(frame), &registry);
    assert_eq!(swaps.len(), 0);
}

#[test]
fn extraction_of_a_missing_trace_is_empty() {
    let registry = weth_pool(addr(0x700), addr(0x800));
    let swaps = extract_swap_info(hash(0x55), None, &registry);
    assert_eq!(swaps.len(), 0);
}

#[test]
fn candidate_builder_probes_a_hundredth_of_weth() {
    // the end-to-end buy: candidate built only for the buy, probing 0.01 WETH
    let pool_addr = addr(0x700);
    let token_x = addr(0x800);
    let registry = weth_pool(pool_addr, token_x);
    let five_weth = 5_000_000_000_000_000_000u128;
    let frame = CallFrame {
        logs: vec![swap_log(pool_addr, swap_data(five_weth, 0, 0, 42))],
        calls: vec![],
    };
    let h = hash(0x56);
    let swaps = extract_swap_info(h, Some(frame), &registry);
    let info = PendingTxInfo {
        pending_tx: pending(h, FeeEncoding::Legacy { gas_price: 100 }),
        touched_pairs: swaps,
    };
    let candidates = appetizer(&block(100, 90), h, 100, &info);
    assert_eq!(candidates.len(), 1);
    assert_eq!(candidates[0].amount_in, 10_000_000_000_000_000);
    assert_eq!(candidates[0].victim_tx.tx_hash, h);
    assert_eq!(candidates[0].victim_tx.gas_price, 100);
    assert_eq!(candidates[0].victim_tx.gas_limit, Some(210_000));
    assert_eq!(candidates[0].victim_tx.data, vec![0xde, 0xad]);
    assert!(candidates[0].optimized_sandwich.is_none());
}

#[test]
fn candidate_builder_ignores_sells() {
    let h = hash(0x57);
    let sell = SwapInfo {
        tx_hash: h,
        target_pair: addr(0x700),
        main_currency: weth(),
        target_token: addr(0x800),
        version: 2,
        token0_is_main: true,
        direction: SwapDirection::Sell,
    };
    let info = PendingTxInfo {
        pending_tx: pending(h, FeeEncoding::Legacy { gas_price: 100 }),
        touched_pairs: vec![sell],
    };
    let candidates = appetizer(&block(100, 90), h, 100, &info);
    assert_eq!(candidates.len(), 0);
}

#[test]
fn tracker_admits_only_fee_covering_transactions() {
    let mut t = PendingTxTracker::new(block(100, 50));
    // legacy below the base fee is never inserted
    assert!(!t.on_pending_tx(pending(hash(1), FeeEncoding::Legacy { gas_price: 49 }), false));
    assert_eq!(t.txs.len(), 0);
    // legacy at the base fee is admissible
    assert!(t.on_pending_tx(pending(hash(2), FeeEncoding::Legacy { gas_price: 50 }), false));
    // fee-market below the base fee is refused
    assert!(!t.on_pending_tx(
        pending(hash(3), FeeEncoding::FeeMarket { max_fee_per_gas: 49 }),
        false
    ));
    // fee-market at the base fee is admissible
    assert!(t.on_pending_tx(
        pending(hash(4), FeeEncoding::FeeMarket { max_fee_per_gas: 50 }),
        false
    ));
    // any other encoding is conservatively excluded
    assert!(!t.on_pending_tx(pending(hash(5), FeeEncoding::Other), false));
    assert_eq!(t.txs.len(), 2);
}

#[test]
fn tracker_discards_stale_transactions_with_receipts() {
    let mut t = PendingTxTracker::new(block(100, 50));
    assert!(!t.on_pending_tx(pending(hash(1), FeeEncoding::Legacy { gas_price: 99 }), true));
    assert_eq!(t.txs.len(), 0);
}

#[test]
fn duplicate_arrival_is_a_no_op() {
    let mut t = PendingTxTracker::new(block(100, 50));
    assert!(t.on_pending_tx(pending(hash(1), FeeEncoding::Legacy { gas_price: 99 }), false));
    assert_eq!(t.txs.len(), 1);
    // the same hash arriving again changes nothing
    assert!(!t.on_pending_tx(pending(hash(1), FeeEncoding::Legacy { gas_price: 99 }), false));
    assert_eq!(t.txs.len(), 1);
}

#[test]
fn mined_transactions_leave_with_their_candidates() {
    let mut t = PendingTxTracker::new(block(100, 50));
    let h = hash(1);
    assert!(t.on_pending_tx(pending(h, FeeEncoding::Legacy { gas_price: 99 }), false));
    assert!(t.apply_candidates(h, vec![candidate(h, 5)]));
    assert_eq!(t.txs[0].candidates.len(), 1);
    t.on_block(block(101, 50), &vec![h]);
    assert_eq!(t.txs.len(), 0);
    // a late completion for the confirmed transaction is discarded
    assert!(!t.apply_candidates(h, vec![candidate(h, 5)]));
    // and the hash may be tracked again only through a fresh arrival
    assert!(t.on_pending_tx(pending(h, FeeEncoding::Legacy { gas_price: 99 }), false));
}

#[test]
fn aged_transactions_are_pruned_after_three_blocks() {
    let mut t = PendingTxTracker::new(block(100, 50));
    let h = hash(1);
    assert!(t.on_pending_tx(pending(h, FeeEncoding::Legacy { gas_price: 99 }), false));
    let none: Vec<Word256> = vec![];
    t.on_block(block(101, 50), &none);
    t.on_block(block(102, 50), &none);
    assert_eq!(t.txs.len(), 1);
    t.on_block(block(103, 50), &none);
    assert_eq!(t.txs.len(), 0);
}

#[test]
fn extraction_results_attach_to_live_entries_only() {
    let mut t = PendingTxTracker::new(block(100, 50));
    let h = hash(1);
    assert!(t.on_pending_tx(pending(h, FeeEncoding::Legacy { gas_price: 99 }), false));
    let swap = SwapInfo {
        tx_hash: h,
        target_pair: addr(0x700),
        main_currency: weth(),
        target_token: addr(0x800),
        version: 2,
        token0_is_main: true,
        direction: SwapDirection::Buy,
    };
    assert!(t.apply_extraction(h, vec![swap]));
    assert_eq!(t.txs[0].info.touched_pairs.len(), 1);
    assert!(!t.apply_extraction(hash(2), vec![]));
}

#[test]
fn bundle_identity_is_hex_of_sorted_prefixes() {
    let batch = BatchSandwich {
        sandwiches: vec![candidate(hash(0xd78ad95f), 1)],
    };
    assert_eq!(batch.bundle_id(), "0xd78ad95f");
    let two = BatchSandwich {
        sandwiches: vec![candidate(hash(0xd78ad95f), 1), candidate(hash(1), 2)],
    };
    assert_eq!(two.bundle_id(), "0x00000001-0xd78ad95f");
}

#[test]
fn bundle_identity_ignores_order_and_duplicates() {
    let a = BatchSandwich {
        sandwiches: vec![candidate(hash(5), 1), candidate(hash(9), 2)],
    };
    let b = BatchSandwich {
        sandwiches: vec![
            candidate(hash(9), 7),
            candidate(hash(5), 8),
            candidate(hash(9), 9),
        ],
    };
    assert_eq!(a.bundle_id(), b.bundle_id());
    assert_eq!(a.bundle_id(), "0x00000005-0x00000009");
}

#[test]
fn batch_accessors_follow_candidate_order() {
    let batch = BatchSandwich {
        sandwiches: vec![candidate(hash(3), 1), candidate(hash(4), 2)],
    };
    let hashes = batch.victim_tx_hashes();
    assert_eq!(hashes, vec![hash(3), hash(4)]);
    assert_eq!(batch.target_tokens(), vec![addr(0x88), addr(0x88)]);
    assert_eq!(batch.target_v2_pairs(), vec![addr(0x77), addr(0x77)]);
}

#[test]
fn history_window_drops_repeated_identities() {
    let mut history = BundleHistory::new();
    let id = String::from("0x00000005-0x00000009");
    assert!(history.check_and_record(&id));
    // the same identity is never resubmitted while in the window
    assert!(!history.check_and_record(&id));
    let other = String::from("0x00000007");
    assert!(history.check_and_record(&other));
}

#[test]
fn history_window_evicts_oldest_beyond_capacity() {
    let mut history = BundleHistory::new();
    let first = String::from("0xfffffff0");
    assert!(history.check_and_record(&first));
    for i in 0..30u32 {
        let id = format!("filler-{}", i);
        assert!(history.check_and_record(&id));
    }
    // thirty newer identities pushed the first one out
    assert!(history.check_and_record(&first));
}

fn outcome(amount_in: u128, revenue: i128, front_gas: u64, back_gas: u64) -> SimulatedSandwich {
    SimulatedSandwich {
        amount_in,
        revenue,
        front_gas_used: front_gas,
        back_gas_used: back_gas,
        front_access_list: vec![],
        back_access_list: vec![],
        front_calldata: vec![1],
        back_calldata: vec![2],
    }
}

#[test]
fn optimizer_picks_the_most_profitable_outcome() {
    // base fee 10: net profits are 100-30=70, 500-40=460, 300-20=280
    let outcomes = vec![
        outcome(10, 100, 1, 2),
        outcome(20, 500, 1, 3),
        outcome(30, 300, 1, 1),
    ];
    let best = choose_optimal(outcomes, 10, 0).expect("profitable");
    assert_eq!(best.amount_in, 20);
    assert_eq!(best.max_revenue, 460);
    assert_eq!(best.front_gas_used, 1);
    assert_eq!(best.back_gas_used, 3);
}

#[test]
fn optimizer_discards_below_margin_opportunities() {
    let outcomes = vec![outcome(10, 100, 1, 2)];
    // net profit is 70: a margin of 70 is not cleared, 69 is
    assert!(choose_optimal(outcomes, 10, 70).is_none());
    let outcomes = vec![outcome(10, 100, 1, 2)];
    assert!(choose_optimal(outcomes, 10, 69).is_some());
    // a losing round trip never clears
    let losing = vec![outcome(10, -5, 1, 2)];
    assert!(choose_optimal(losing, 10, 0).is_none());
    let empty: Vec<SimulatedSandwich> = vec![];
    assert!(choose_optimal(empty, 10, 0).is_none());
}

#[test]
fn probe_grid_is_evenly_spaced() {
    let grid = probe_amounts(100, 200, 4);
    assert_eq!(grid, vec![100, 125, 150, 175, 200]);
    let flat = probe_amounts(7, 7, 2);
    assert_eq!(flat, vec![7, 7, 7]);
}

#[test]
fn frontrun_calldata_encodes_a_target_token_buy() {
    let info = SwapInfo {
        tx_hash: hash(1),
        target_pair: addr(0x700),
        main_currency: weth(),
        target_token: addr(0x800),
        version: 2,
        token0_is_main: true,
        direction: SwapDirection::Buy,
    };
    let to = Address { hi: 0x01020304, lo: 0x05060708090a0b0c0d0e0f1011121314 };
    let calldata = BatchSandwich::encode_frontrun_tx(&info, 0x0102, to);
    assert_eq!(calldata.len(), 164);
    // the swap selector
    assert_eq!(&calldata[0..4], &[0x02, 0x2c, 0x0d, 0x9f]);
    // amount0Out is zero: the main currency sits on token0
    assert!(calldata[4..36].iter().all(|b| *b == 0));
    // amount1Out carries the requested target amount
    assert_eq!(calldata[66], 0x01);
    assert_eq!(calldata[67], 0x02);
    assert!(calldata[36..66].iter().all(|b| *b == 0));
    // the recipient, left-padded to a word
    assert!(calldata[68..80].iter().all(|b| *b == 0));
    assert_eq!(
        &calldata[80..100],
        &[
            0x01, 0x02, 0x03, 0x04, 0x05, 0x06, 0x07, 0x08, 0x09, 0x0a, 0x0b, 0x0c, 0x0d, 0x0e,
            0x0f, 0x10, 0x11, 0x12, 0x13, 0x14
        ]
    );
    // the empty extra-data argument: offset 0x80, then zero length
    assert_eq!(calldata[131], 0x80);
    assert!(calldata[100..131].iter().all(|b| *b == 0));
    assert!(calldata[132..164].iter().all(|b| *b == 0));
}

#[test]
fn backrun_calldata_draws_the_main_currency() {
    let info = SwapInfo {
        tx_hash: hash(1),
        target_pair: addr(0x700),
        main_currency: weth(),
        target_token: addr(0x800),
        version: 2,
        token0_is_main: true,
        direction: SwapDirection::Buy,
    };
    let calldata = BatchSandwich::encode_backrun_tx(&info, 0x99, addr(1));
    // amount0Out carries the main-currency proceeds this time
    assert_eq!(calldata[35], 0x99);
    assert!(calldata[36..68].iter().all(|b| *b == 0));
}

#[test]
fn end_to_end_buy_is_tracked_optimized_and_deduplicated() {
    // chain state: one (WETH, TOKEN_X) pool; head block 100, base fee 40
    let pool_addr = addr(0x700);
    let token_x = addr(0x800);
    let registry = weth_pool(pool_addr, token_x);
    let mut tracker = PendingTxTracker::new(block(100, 40));
    let mut history = BundleHistory::new();

    // a victim swaps 5 WETH for TOKEN_X, paying above the base fee
    let h = hash(0x5157);
    let victim = pending(h, FeeEncoding::Legacy { gas_price: 50 });
    assert!(tracker.on_pending_tx(victim, false));

    // extraction on the traced call tree finds one buy of TOKEN_X
    let five_weth = 5_000_000_000_000_000_000u128;
    let frame = CallFrame {
        logs: vec![swap_log(pool_addr, swap_data(five_weth, 0, 0, 777))],
        calls: vec![],
    };
    let swaps = extract_swap_info(h, Some(frame), &registry);
    assert_eq!(swaps.len(), 1);
    assert_eq!(swaps[0].direction, SwapDirection::Buy);
    assert_eq!(swaps[0].main_currency, weth());
    assert!(tracker.apply_extraction(h, swaps));

    // the candidate builder probes with 0.01 WETH
    let entry_info = &tracker.txs[0].info;
    let candidates = appetizer(&block(100, 40), h, 50, entry_info);
    assert_eq!(candidates.len(), 1);
    assert_eq!(candidates[0].amount_in, 10_000_000_000_000_000);

    // the optimizer accepts only an outcome whose revenue clears the gas cost
    let losing = vec![outcome(10_000_000_000_000_000, 100, 10, 10)];
    assert!(choose_optimal(losing, 40, 0).is_none());
    let winning = vec![
        outcome(10_000_000_000_000_000, 100, 1, 1),
        outcome(20_000_000_000_000_000, 900, 1, 1),
    ];
    let best = choose_optimal(winning, 40, 0).expect("profitable");
    assert_eq!(best.amount_in, 20_000_000_000_000_000);
    assert_eq!(best.max_revenue, 900 - 80);

    // the bundle identity gates submission once
    let batch = BatchSandwich {
        sandwiches: candidates,
    };
    let id = batch.bundle_id();
    assert_eq!(id, "0x00005157");
    assert!(history.check_and_record(&id));
    assert!(!history.check_and_record(&id));

    // the victim confirms in block 101: entry and candidates leave the table
    tracker.apply_candidates(h, batch.sandwiches);
    tracker.on_block(block(101, 40), &vec![h]);
    assert_eq!(tracker.txs.len(), 0);
}

#[test]
fn log_walk_visits_parents_before_children_left_to_right() {
    let leaf = |tag: u128| CallLogFrame {
        address: Some(addr(9)),
        topics: None,
        data: Some(vec![tag as u8]),
    };
    let tree = CallFrame {
        logs: vec![leaf(1)],
        calls: vec![
            CallFrame {
                logs: vec![leaf(2)],
                calls: vec![CallFrame {
                    logs: vec![leaf(3)],
                    calls: vec![],
                }],
            },
            CallFrame {
                logs: vec![leaf(4)],
                calls: vec![],
            },
        ],
    };
    let mut logs = Vec::new();
    extract_logs(tree, &mut logs);
    let tags: Vec<u8> = logs
        .iter()
        .map(|l| l.data.as_ref().unwrap()[0])
        .collect();
    assert_eq!(tags, vec![1, 2, 3, 4]);
}
