//! Swap extraction: walking the call tree a trace-based simulation returned
//! and classifying every constant-product swap event found in its logs.

use vstd::prelude::*;
use vstd::arithmetic::mul::lemma_mul_inequality;

use crate::abi::{append_hex32, range_is_nonzero, spec_be_val, spec_hex32};
use crate::evm::{AccessList, VictimTx};
use crate::pools::{spec_find_pool, Pool, PoolRegistry};
use crate::streams::NewPendingTx;
use crate::types::{Address, Word256};
use crate::utils::{return_main_and_target_currency, spec_return_main_and_target_currency};

verus! {

/// Leading 4 bytes of the constant-product pool's swap event topic.
pub const V2_SWAP_EVENT_ID: u32 = 0xd78ad95f;

/// Whether the victim acquires the target token (paying main currency) or
/// sells it.
#[derive(Debug, Clone, Copy, PartialEq, Eq, Structural)]
pub enum SwapDirection {
    Buy,
    Sell,
}

/// One classified swap performed by a pending transaction.
#[derive(Debug, Clone, Copy, PartialEq, Eq, Structural)]
pub struct SwapInfo {
    pub tx_hash: Word256,
    pub target_pair: Address,
    pub main_currency: Address,
    pub target_token: Address,
    pub version: u8,
    pub token0_is_main: bool,
    pub direction: SwapDirection,
}

/// One event log recorded during call-tracing simulation; any field may be
/// missing from a malformed record.
#[derive(Debug)]
pub struct CallLogFrame {
    pub address: Option<Address>,
    pub topics: Option<Vec<Word256>>,
    pub data: Option<Vec<u8>>,
}

/// One node of the traced call tree: the logs this call emitted and its
/// nested calls.
#[derive(Debug)]
pub struct CallFrame {
    pub logs: Vec<CallLogFrame>,
    pub calls: Vec<CallFrame>,
}

/// A pending transaction together with the swaps extraction found in it.
#[derive(Debug)]
pub struct PendingTxInfo {
    pub pending_tx: NewPendingTx,
    pub touched_pairs: Vec<SwapInfo>,
}

/// A sandwich candidate: a probe input, the swap it targets, and the frozen
/// victim transaction; the optimizer's result is attached once computed.
#[derive(Debug)]
pub struct Sandwich {
    pub amount_in: u128,
    pub swap_info: SwapInfo,
    pub victim_tx: VictimTx,
    pub optimized_sandwich: Option<OptimizedSandwich>,
}

/// The profit-maximizing sandwich found for a candidate: chosen input, its
/// projected revenue, and the gas, access lists and calldata of both legs.
#[derive(Debug)]
pub struct OptimizedSandwich {
    pub amount_in: u128,
    pub max_revenue: u128,
    pub front_gas_used: u64,
    pub back_gas_used: u64,
    pub front_access_list: AccessList,
    pub back_access_list: AccessList,
    pub front_calldata: Vec<u8>,
    pub back_calldata: Vec<u8>,
}

/// How one log is classified: a swap on a registered pool quoted in a
/// recognized main currency, with 128 bytes of amount data, or nothing.
/// The direction is a buy when the main currency flows into the pool on the
/// same side the main currency sits on.
pub open spec fn spec_classify_log(log: CallLogFrame, pools: Seq<Pool>, tx_hash: Word256) -> Option<
    SwapInfo,
> {
    match (log.address, log.topics, log.data) {
        (Some(addr), Some(topics), Some(data)) => {
            if topics@.len() > 1 && topics@[0].spec_selector() == V2_SWAP_EVENT_ID {
                match spec_find_pool(pools, addr) {
                    Some(pool) => match spec_return_main_and_target_currency(
                        pool.token0,
                        pool.token1,
                    ) {
                        Some((main_currency, target_token)) => {
                            if data@.len() == 128 {
                                let token0_is_main = main_currency == pool.token0;
                                let zero_for_one = spec_be_val(data@.subrange(0, 32)) != 0
                                    && spec_be_val(data@.subrange(96, 128)) != 0;
                                Some(
                                    SwapInfo {
                                        tx_hash,
                                        target_pair: addr,
                                        main_currency,
                                        target_token,
                                        version: 2,
                                        token0_is_main,
                                        direction: if token0_is_main == zero_for_one {
                                            SwapDirection::Buy
                                        } else {
                                            SwapDirection::Sell
                                        },
                                    },
                                )
                            } else {
                                None
                            }
                        },
                        None => None,
                    },
                    None => None,
                }
            } else {
                None
            }
        },
        _ => None,
    }
}

/// Classifies one simulated log, skipping anything that is not a well-formed
/// swap event on a registered, main-currency-quoted pool.
pub fn classify_log(log: &CallLogFrame, pools_map: &PoolRegistry, tx_hash: Word256) -> (r: Option<
    SwapInfo,
>)
    ensures
        r == spec_classify_log(*log, pools_map.pools@, tx_hash),
{
    match (&log.address, &log.topics, &log.data) {
        (Some(addr), Some(topics), Some(data)) => {
            if topics.len() > 1 && topics[0].selector() == V2_SWAP_EVENT_ID {
                match pools_map.resolve_pool(*addr) {
                    Some(pool) => match return_main_and_target_currency(pool.token0, pool.token1) {
                        Some((main_currency, target_token)) => {
                            if data.len() == 128 {
                                let token0_is_main = main_currency == pool.token0;
                                let in0 = range_is_nonzero(data, 0, 32);
                                let out1 = range_is_nonzero(data, 96, 128);
                                let zero_for_one = in0 && out1;
                                Some(
                                    SwapInfo {
                                        tx_hash,
                                        target_pair: *addr,
                                        main_currency,
                                        target_token,
                                        version: 2,
                                        token0_is_main,
                                        direction: if token0_is_main == zero_for_one {
                                            SwapDirection::Buy
                                        } else {
                                            SwapDirection::Sell
                                        },
                                    },
                                )
                            } else {
                                None
                            }
                        },
                        None => None,
                    },
                    None => None,
                }
            } else {
                None
            }
        },
        _ => None,
    }
}

/// Every log a call tree emitted, in walk order: a node's own logs, then its
/// children's, left to right.
pub open spec fn spec_frame_logs(frame: CallFrame) -> Seq<CallLogFrame>
    decreases frame, 1int,
{
    frame.logs@ + spec_frames_logs(frame.calls@)
}

pub open spec fn spec_frames_logs(frames: Seq<CallFrame>) -> Seq<CallLogFrame>
    decreases frames, 0int,
{
    if frames.len() == 0 {
        Seq::empty()
    } else {
        spec_frame_logs(frames[0]) + spec_frames_logs(frames.drop_first())
    }
}

/// Collecting logs distributes over concatenation of sibling lists.
proof fn lemma_frames_logs_concat(s1: Seq<CallFrame>, s2: Seq<CallFrame>)
    ensures
        spec_frames_logs(s1 + s2) == spec_frames_logs(s1) + spec_frames_logs(s2),
    decreases s1.len(),
{
    if s1.len() == 0 {
        assert(s1 + s2 =~= s2);
        assert(spec_frames_logs(s1) + spec_frames_logs(s2) =~= spec_frames_logs(s2));
    } else {
        assert((s1 + s2).len() > 0);
        assert((s1 + s2)[0] == s1[0]);
        assert((s1 + s2).drop_first() =~= s1.drop_first() + s2);
        lemma_frames_logs_concat(s1.drop_first(), s2);
        assert(spec_frame_logs(s1[0]) + (spec_frames_logs(s1.drop_first()) + spec_frames_logs(s2))
            =~= (spec_frame_logs(s1[0]) + spec_frames_logs(s1.drop_first())) + spec_frames_logs(
            s2,
        ));
    }
}

/// Appends every log of the call tree to `logs`, visiting each node exactly
/// once, parents before children.
pub fn extract_logs(call_frame: CallFrame, logs: &mut Vec<CallLogFrame>)
    ensures
        final(logs)@ == old(logs)@ + spec_frame_logs(call_frame),
    decreases call_frame,
{
    let ghost frame0 = call_frame;
    let ghost logs0 = logs@;
    let CallFrame { logs: mut own_logs, calls: mut children } = call_frame;
    logs.append(&mut own_logs);
    let n = children.len();
    let mut k: usize = 0;
    proof {
        assert(children@.skip(0) =~= frame0.calls@.skip(0));
        assert(frame0.calls@.skip(0) =~= frame0.calls@);
        assert(frame0.calls@.take(0) =~= Seq::<CallFrame>::empty());
        assert(logs@ =~= logs0 + frame0.logs@ + spec_frames_logs(frame0.calls@.take(0)));
    }
    #[verifier::loop_isolation(false)]
    while k < n
        invariant
            n == frame0.calls@.len(),
            k <= n,
            children@ =~= frame0.calls@.skip(k as int),
            logs@ == logs0 + frame0.logs@ + spec_frames_logs(frame0.calls@.take(k as int)),
        decreases n - k,
    {
        let child = children.remove(0);
        proof {
            assert(frame0.calls@.skip(k as int)[0] == frame0.calls@[k as int]);
            assert(child == frame0.calls@[k as int]);
            assert(children@ =~= frame0.calls@.skip(k + 1));
            assert(decreases_to!(frame0 => frame0.calls@[k as int]));
            assert(decreases_to!(frame0 => child));
        }
        extract_logs(child, logs);
        proof {
            let c = frame0.calls@[k as int];
            assert(spec_frames_logs(Seq::<CallFrame>::empty()) =~= Seq::<CallLogFrame>::empty());
            assert(seq![c].drop_first() =~= Seq::<CallFrame>::empty());
            assert(seq![c][0] == c);
            assert(spec_frames_logs(seq![c]) =~= spec_frame_logs(c));
            lemma_frames_logs_concat(frame0.calls@.take(k as int), seq![c]);
            assert(frame0.calls@.take(k + 1) =~= frame0.calls@.take(k as int) + seq![c]);
            assert(logs@ =~= logs0 + frame0.logs@ + spec_frames_logs(frame0.calls@.take(k + 1)));
        }
        k = k + 1;
    }
    proof {
        assert(frame0.calls@.take(n as int) =~= frame0.calls@);
        assert(logs@ =~= logs0 + spec_frame_logs(frame0));
    }
}

/// The swaps a call tree's logs classify to, in walk order.
pub open spec fn spec_swaps_of_logs(
    logs: Seq<CallLogFrame>,
    pools: Seq<Pool>,
    tx_hash: Word256,
) -> Seq<SwapInfo>
    decreases logs.len(),
{
    if logs.len() == 0 {
        Seq::empty()
    } else {
        (match spec_classify_log(logs[0], pools, tx_hash) {
            Some(si) => seq![si],
            None => Seq::empty(),
        }) + spec_swaps_of_logs(logs.drop_first(), pools, tx_hash)
    }
}

/// What extraction owes for a traced transaction: the classification of every
/// log in its call tree; nothing when the trace was unavailable.
pub open spec fn spec_extracted_swaps(
    frame: Option<CallFrame>,
    pools: Seq<Pool>,
    tx_hash: Word256,
) -> Seq<SwapInfo> {
    match frame {
        Some(f) => spec_swaps_of_logs(spec_frame_logs(f), pools, tx_hash),
        None => Seq::empty(),
    }
}

/// Extracts every classified swap from a traced pending transaction. A
/// missing trace degrades to an empty swap list; unknown pools, pairs without
/// a recognized main currency and malformed logs are skipped one by one.
pub fn extract_swap_info(tx_hash: Word256, frame: Option<CallFrame>, pools_map: &PoolRegistry) -> (r:
    Vec<SwapInfo>)
    ensures
        r@ == spec_extracted_swaps(frame, pools_map.pools@, tx_hash),
{
    let mut swap_info_vec: Vec<SwapInfo> = Vec::new();
    let f = match frame {
        Some(f) => f,
        None => {
            return swap_info_vec;
        },
    };
    let ghost f0 = f;
    let mut logs: Vec<CallLogFrame> = Vec::new();
    extract_logs(f, &mut logs);
    let n = logs.len();
    let mut i: usize = 0;
    proof {
        assert(logs@.skip(0) =~= logs@);
    }
    while i < n
        invariant
            n == logs@.len(),
            i <= n,
            logs@ == spec_frame_logs(f0),
            spec_swaps_of_logs(logs@, pools_map.pools@, tx_hash) == swap_info_vec@
                + spec_swaps_of_logs(logs@.skip(i as int), pools_map.pools@, tx_hash),
        decreases n - i,
    {
        proof {
            assert(logs@.skip(i as int)[0] == logs@[i as int]);
            assert(logs@.skip(i as int).drop_first() =~= logs@.skip(i + 1));
        }
        match classify_log(&logs[i], pools_map, tx_hash) {
            Some(si) => {
                swap_info_vec.push(si);
            },
            None => {},
        }
        i = i + 1;
    }
    proof {
        assert(logs@.skip(n as int).len() == 0);
        assert(swap_info_vec@ =~= spec_swaps_of_logs(logs@, pools_map.pools@, tx_hash));
    }
    swap_info_vec
}

/// Strictly ascending: sorted with no duplicates.
pub open spec fn spec_sorted_strict(s: Seq<u32>) -> bool {
    forall|i: int, j: int| 0 <= i < j < s.len() ==> s[i] < s[j]
}

/// Inserts a key into a strictly sorted sequence, keeping it strictly
/// sorted: an already-present key changes nothing.
pub open spec fn spec_insert_sorted(x: u32, s: Seq<u32>) -> Seq<u32>
    decreases s.len(),
{
    if s.len() == 0 {
        seq![x]
    } else if x < s[0] {
        seq![x] + s
    } else if x == s[0] {
        s
    } else {
        seq![s[0]] + spec_insert_sorted(x, s.drop_first())
    }
}

/// The canonical key of a bundle: the strictly sorted set of the leading
/// 4 bytes of its victim transaction hashes.
pub open spec fn spec_bundle_key(hashes: Seq<Word256>) -> Seq<u32>
    decreases hashes.len(),
{
    if hashes.len() == 0 {
        Seq::empty()
    } else {
        spec_insert_sorted(hashes[0].spec_selector(), spec_bundle_key(hashes.drop_first()))
    }
}

/// Some hash in `hashes` has `y` as its leading 4 bytes.
pub open spec fn spec_has_prefix(hashes: Seq<Word256>, y: u32) -> bool {
    exists|i: int| 0 <= i < hashes.len() && (#[trigger] hashes[i]).spec_selector() == y
}

/// Inserting keeps the sequence strictly sorted and adds exactly the new
/// key to its contents.
pub proof fn lemma_insert_sorted_props(x: u32, s: Seq<u32>)
    requires
        spec_sorted_strict(s),
    ensures
        spec_sorted_strict(spec_insert_sorted(x, s)),
        forall|y: u32|
            #[trigger] spec_insert_sorted(x, s).contains(y) <==> (y == x || s.contains(y)),
    decreases s.len(),
{
    let out = spec_insert_sorted(x, s);
    if s.len() == 0 {
        assert forall|y: u32| #[trigger] out.contains(y) <==> (y == x || s.contains(y)) by {
            assert(out[0] == x);
            if out.contains(y) {
                let i = choose|i: int| 0 <= i < out.len() && out[i] == y;
                assert(i == 0);
            }
            if s.contains(y) {
                let i = choose|i: int| 0 <= i < s.len() && s[i] == y;
                assert(false);
            }
        }
    } else if x < s[0] {
        assert(out == seq![x] + s);
        assert forall|i: int, j: int| 0 <= i < j < out.len() implies out[i] < out[j] by {
            if i == 0 {
                assert(out[0] == x && out[j] == s[j - 1]);
                if j > 1 {
                    assert(s[0] < s[j - 1]);
                }
            } else {
                assert(out[i] == s[i - 1] && out[j] == s[j - 1]);
            }
        }
        assert forall|y: u32| #[trigger] out.contains(y) <==> (y == x || s.contains(y)) by {
            if out.contains(y) {
                let i = choose|i: int| 0 <= i < out.len() && out[i] == y;
                if i > 0 {
                    assert(s[i - 1] == y);
                }
            }
            if s.contains(y) {
                let i = choose|i: int| 0 <= i < s.len() && s[i] == y;
                assert(out[i + 1] == y);
            }
            assert(out[0] == x);
        }
    } else if x == s[0] {
        assert forall|y: u32| #[trigger] out.contains(y) <==> (y == x || s.contains(y)) by {
            if y == x {
                assert(s[0] == y);
            }
        }
    } else {
        let rest = s.drop_first();
        let rest_out = spec_insert_sorted(x, rest);
        assert(spec_sorted_strict(rest)) by {
            assert(forall|i: int| 0 <= i < rest.len() ==> rest[i] == s[i + 1]);
        }
        lemma_insert_sorted_props(x, rest);
        assert(out == seq![s[0]] + rest_out);
        assert forall|i: int, j: int| 0 <= i < j < out.len() implies out[i] < out[j] by {
            if i == 0 {
                assert(out[j] == rest_out[j - 1]);
                assert(rest_out.contains(rest_out[j - 1]));
                if rest_out[j - 1] == x {
                    assert(out[0] == s[0] && s[0] < x);
                } else {
                    assert(rest.contains(rest_out[j - 1]));
                    let t = choose|t: int| 0 <= t < rest.len() && rest[t] == rest_out[j - 1];
                    assert(rest[t] == s[t + 1]);
                    assert(s[0] < s[t + 1]);
                }
            } else {
                assert(out[i] == rest_out[i - 1] && out[j] == rest_out[j - 1]);
            }
        }
        assert forall|y: u32| #[trigger] out.contains(y) <==> (y == x || s.contains(y)) by {
            if out.contains(y) {
                let i = choose|i: int| 0 <= i < out.len() && out[i] == y;
                if i == 0 {
                    assert(s[0] == y);
                } else {
                    assert(rest_out[i - 1] == y);
                    assert(rest_out.contains(y));
                    if y != x {
                        let t = choose|t: int| 0 <= t < rest.len() && rest[t] == y;
                        assert(s[t + 1] == y);
                    }
                }
            }
            if y == x || s.contains(y) {
                if y == x {
                    assert(rest_out.contains(y));
                    let t = choose|t: int| 0 <= t < rest_out.len() && rest_out[t] == y;
                    assert(out[t + 1] == y);
                } else {
                    let i = choose|i: int| 0 <= i < s.len() && s[i] == y;
                    if i == 0 {
                        assert(out[0] == y);
                    } else {
                        assert(rest[i - 1] == y);
                        assert(rest.contains(y));
                        assert(rest_out.contains(y));
                        let t = choose|t: int| 0 <= t < rest_out.len() && rest_out[t] == y;
                        assert(out[t + 1] == y);
                    }
                }
            }
        }
    }
}

/// The bundle key is strictly sorted and holds exactly the hash prefixes.
pub proof fn lemma_bundle_key_props(hashes: Seq<Word256>)
    ensures
        spec_sorted_strict(spec_bundle_key(hashes)),
        forall|y: u32| #[trigger] spec_bundle_key(hashes).contains(y) <==> spec_has_prefix(
            hashes,
            y,
        ),
    decreases hashes.len(),
{
    let key = spec_bundle_key(hashes);
    if hashes.len() == 0 {
        assert forall|y: u32| #[trigger] key.contains(y) <==> spec_has_prefix(hashes, y) by {
            if key.contains(y) {
                let i = choose|i: int| 0 <= i < key.len() && key[i] == y;
            }
            if spec_has_prefix(hashes, y) {
                let i = choose|i: int|
                    0 <= i < hashes.len() && (#[trigger] hashes[i]).spec_selector() == y;
            }
        }
    } else {
        let rest = hashes.drop_first();
        lemma_bundle_key_props(rest);
        lemma_insert_sorted_props(hashes[0].spec_selector(), spec_bundle_key(rest));
        assert forall|y: u32| #[trigger] key.contains(y) <==> spec_has_prefix(hashes, y) by {
            if key.contains(y) {
                if y != hashes[0].spec_selector() {
                    assert(spec_bundle_key(rest).contains(y));
                    assert(spec_has_prefix(rest, y));
                    let i = choose|i: int|
                        0 <= i < rest.len() && (#[trigger] rest[i]).spec_selector() == y;
                    assert(hashes[i + 1] == rest[i]);
                } else {
                    assert(hashes[0].spec_selector() == y);
                }
            }
            if spec_has_prefix(hashes, y) {
                let i = choose|i: int|
                    0 <= i < hashes.len() && (#[trigger] hashes[i]).spec_selector() == y;
                if i > 0 {
                    assert(rest[i - 1] == hashes[i]);
                    assert(spec_has_prefix(rest, y));
                    assert(spec_bundle_key(rest).contains(y));
                }
            }
        }
    }
}

/// Two strictly sorted sequences with the same contents are the same
/// sequence.
pub proof fn lemma_sorted_strict_canonical(s1: Seq<u32>, s2: Seq<u32>)
    requires
        spec_sorted_strict(s1),
        spec_sorted_strict(s2),
        forall|y: u32| s1.contains(y) <==> s2.contains(y),
    ensures
        s1 == s2,
    decreases s1.len(),
{
    if s1.len() == 0 {
        if s2.len() > 0 {
            assert(s2.contains(s2[0]));
            assert(s1.contains(s2[0]));
            let i = choose|i: int| 0 <= i < s1.len() && s1[i] == s2[0];
            assert(false);
        }
        assert(s1 =~= s2);
    } else {
        assert(s2.len() > 0) by {
            assert(s1.contains(s1[0]));
            assert(s2.contains(s1[0]));
        }
        // both heads are the minimum of the common contents
        assert(s1[0] == s2[0]) by {
            assert(s1.contains(s1[0]));
            assert(s2.contains(s1[0]));
            let i = choose|i: int| 0 <= i < s2.len() && s2[i] == s1[0];
            assert(s2[0] <= s2[i]);
            assert(s2.contains(s2[0]));
            assert(s1.contains(s2[0]));
            let j = choose|j: int| 0 <= j < s1.len() && s1[j] == s2[0];
            assert(s1[0] <= s1[j]);
        }
        let r1 = s1.drop_first();
        let r2 = s2.drop_first();
        assert(spec_sorted_strict(r1)) by {
            assert(forall|i: int| 0 <= i < r1.len() ==> r1[i] == s1[i + 1]);
        }
        assert(spec_sorted_strict(r2)) by {
            assert(forall|i: int| 0 <= i < r2.len() ==> r2[i] == s2[i + 1]);
        }
        assert forall|y: u32| r1.contains(y) <==> r2.contains(y) by {
            if r1.contains(y) {
                let i = choose|i: int| 0 <= i < r1.len() && r1[i] == y;
                assert(s1[i + 1] == y);
                assert(s1.contains(y));
                assert(s2.contains(y));
                let j = choose|j: int| 0 <= j < s2.len() && s2[j] == y;
                assert(s1[0] < s1[i + 1]);
                assert(j != 0);
                assert(r2[j - 1] == y);
            }
            if r2.contains(y) {
                let i = choose|i: int| 0 <= i < r2.len() && r2[i] == y;
                assert(s2[i + 1] == y);
                assert(s2.contains(y));
                assert(s1.contains(y));
                let j = choose|j: int| 0 <= j < s1.len() && s1[j] == y;
                assert(s2[0] < s2[i + 1]);
                assert(j != 0);
                assert(r1[j - 1] == y);
            }
        }
        lemma_sorted_strict_canonical(r1, r2);
        assert(s1.len() == s2.len());
        assert forall|i: int| 0 <= i < s1.len() implies s1[i] == s2[i] by {
            if i > 0 {
                assert(s1[i] == r1[i - 1]);
                assert(s2[i] == r2[i - 1]);
            }
        }
        assert(s1 =~= s2);
    }
}

/// Law: the bundle key is a pure function of the set of victim hash
/// prefixes; the order and multiplicity of the hashes do not matter.
pub proof fn lemma_bundle_key_is_set_function(h1: Seq<Word256>, h2: Seq<Word256>)
    requires
        forall|y: u32| spec_has_prefix(h1, y) <==> spec_has_prefix(h2, y),
    ensures
        spec_bundle_key(h1) == spec_bundle_key(h2),
{
    lemma_bundle_key_props(h1);
    lemma_bundle_key_props(h2);
    lemma_sorted_strict_canonical(spec_bundle_key(h1), spec_bundle_key(h2));
}

/// The bundle identity string: the hex forms of the keys joined by `-`.
pub open spec fn spec_join_hex(keys: Seq<u32>) -> Seq<char>
    decreases keys.len(),
{
    if keys.len() == 0 {
        Seq::empty()
    } else if keys.len() == 1 {
        spec_hex32(keys[0])
    } else {
        spec_hex32(keys[0]) + seq!['-'] + spec_join_hex(keys.drop_first())
    }
}

/// Appending one key extends the joined string by a separator (except at the
/// front) and the key's hex form.
pub proof fn lemma_join_hex_snoc(keys: Seq<u32>, x: u32)
    ensures
        keys.len() == 0 ==> spec_join_hex(keys.push(x)) == spec_hex32(x),
        keys.len() > 0 ==> spec_join_hex(keys.push(x)) == spec_join_hex(keys) + seq!['-']
            + spec_hex32(x),
    decreases keys.len(),
{
    let s2 = keys.push(x);
    if keys.len() == 0 {
        assert(s2.len() == 1 && s2[0] == x);
    } else {
        assert(s2.len() >= 2);
        assert(s2[0] == keys[0]);
        assert(s2.drop_first() =~= keys.drop_first().push(x));
        lemma_join_hex_snoc(keys.drop_first(), x);
        if keys.len() == 1 {
            assert(keys.drop_first().len() == 0);
            assert(spec_join_hex(s2) =~= spec_join_hex(keys) + seq!['-'] + spec_hex32(x));
        } else {
            assert(spec_join_hex(s2) =~= spec_join_hex(keys) + seq!['-'] + spec_hex32(x));
        }
    }
}

/// Keeps `keys` strictly sorted while adding `x`; a key already present
/// changes nothing.
fn insert_key(keys: &mut Vec<u32>, x: u32)
    requires
        spec_sorted_strict(old(keys)@),
    ensures
        spec_sorted_strict(final(keys)@),
        forall|y: u32| final(keys)@.contains(y) <==> (y == x || old(keys)@.contains(y)),
{
    let ghost k0 = keys@;
    let n = keys.len();
    let mut j: usize = 0;
    while j < n && keys[j] < x
        invariant
            n == keys@.len(),
            keys@ == k0,
            j <= n,
            forall|t: int| 0 <= t < j ==> keys@[t] < x,
        decreases n - j,
    {
        j = j + 1;
    }
    if j < n && keys[j] == x {
        proof {
            assert(keys@[j as int] == x);
            assert forall|y: u32| keys@.contains(y) <==> (y == x || k0.contains(y)) by {
                if y == x {
                    assert(keys@[j as int] == y);
                }
            }
        }
        return;
    }
    keys.insert(j, x);
    proof {
        assert(keys@ == k0.insert(j as int, x));
        assert(forall|t: int| 0 <= t < j ==> keys@[t] == k0[t]);
        assert(keys@[j as int] == x);
        assert(forall|t: int| j < t < keys@.len() ==> keys@[t] == k0[t - 1]);
        assert forall|t1: int, t2: int| 0 <= t1 < t2 < keys@.len() implies keys@[t1]
            < keys@[t2] by {
            if t1 == j {
                assert(keys@[t2] == k0[t2 - 1]);
                assert(k0[t2 - 1] >= k0[j as int]);
            } else if t2 == j {
                assert(keys@[t1] == k0[t1]);
            } else if t1 < j && t2 > j {
                assert(keys@[t1] == k0[t1] && keys@[t2] == k0[t2 - 1]);
                assert(k0[t2 - 1] >= k0[j as int]);
            } else if t2 < j {
                assert(keys@[t1] == k0[t1] && keys@[t2] == k0[t2]);
            } else {
                assert(keys@[t1] == k0[t1 - 1] && keys@[t2] == k0[t2 - 1]);
            }
        }
        assert forall|y: u32| keys@.contains(y) <==> (y == x || k0.contains(y)) by {
            if keys@.contains(y) {
                let t = choose|t: int| 0 <= t < keys@.len() && keys@[t] == y;
                if t < j {
                    assert(k0[t] == y);
                } else if t > j {
                    assert(k0[t - 1] == y);
                }
            }
            if y == x {
                assert(keys@[j as int] == y);
            }
            if k0.contains(y) {
                let t = choose|t: int| 0 <= t < k0.len() && k0[t] == y;
                if t < j {
                    assert(keys@[t] == y);
                } else {
                    assert(keys@[t + 1] == y);
                }
            }
        }
    }
}

/// All sandwich opportunities grouped for one target block, submitted
/// together as one atomic bundle.
#[derive(Debug)]
pub struct BatchSandwich {
    pub sandwiches: Vec<Sandwich>,
}

impl BatchSandwich {
    /// The victim transaction hashes, in candidate order.
    pub fn victim_tx_hashes(&self) -> (r: Vec<Word256>)
        ensures
            r@ == self.sandwiches@.map_values(|s: Sandwich| s.victim_tx.tx_hash),
    {
        let n = self.sandwiches.len();
        let mut r: Vec<Word256> = Vec::new();
        let mut i: usize = 0;
        proof {
            assert(r@ =~= self.sandwiches@.take(0).map_values(
                |s: Sandwich| s.victim_tx.tx_hash,
            ));
        }
        while i < n
            invariant
                n == self.sandwiches@.len(),
                i <= n,
                r@ == self.sandwiches@.take(i as int).map_values(
                    |s: Sandwich| s.victim_tx.tx_hash,
                ),
            decreases n - i,
        {
            r.push(self.sandwiches[i].victim_tx.tx_hash);
            proof {
                assert(r@ =~= self.sandwiches@.take(i + 1).map_values(
                    |s: Sandwich| s.victim_tx.tx_hash,
                ));
            }
            i = i + 1;
        }
        proof {
            assert(self.sandwiches@.take(n as int) =~= self.sandwiches@);
        }
        r
    }

    /// The target tokens of the candidates, in candidate order.
    pub fn target_tokens(&self) -> (r: Vec<Address>)
        ensures
            r@ == self.sandwiches@.map_values(|s: Sandwich| s.swap_info.target_token),
    {
        let n = self.sandwiches.len();
        let mut r: Vec<Address> = Vec::new();
        let mut i: usize = 0;
        proof {
            assert(r@ =~= self.sandwiches@.take(0).map_values(
                |s: Sandwich| s.swap_info.target_token,
            ));
        }
        while i < n
            invariant
                n == self.sandwiches@.len(),
                i <= n,
                r@ == self.sandwiches@.take(i as int).map_values(
                    |s: Sandwich| s.swap_info.target_token,
                ),
            decreases n - i,
        {
            r.push(self.sandwiches[i].swap_info.target_token);
            proof {
                assert(r@ =~= self.sandwiches@.take(i + 1).map_values(
                    |s: Sandwich| s.swap_info.target_token,
                ));
            }
            i = i + 1;
        }
        proof {
            assert(self.sandwiches@.take(n as int) =~= self.sandwiches@);
        }
        r
    }

    /// The targeted pool pair addresses, in candidate order.
    pub fn target_v2_pairs(&self) -> (r: Vec<Address>)
        ensures
            r@ == self.sandwiches@.map_values(|s: Sandwich| s.swap_info.target_pair),
    {
        let n = self.sandwiches.len();
        let mut r: Vec<Address> = Vec::new();
        let mut i: usize = 0;
        proof {
            assert(r@ =~= self.sandwiches@.take(0).map_values(
                |s: Sandwich| s.swap_info.target_pair,
            ));
        }
        while i < n
            invariant
                n == self.sandwiches@.len(),
                i <= n,
                r@ == self.sandwiches@.take(i as int).map_values(
                    |s: Sandwich| s.swap_info.target_pair,
                ),
            decreases n - i,
        {
            r.push(self.sandwiches[i].swap_info.target_pair);
            proof {
                assert(r@ =~= self.sandwiches@.take(i + 1).map_values(
                    |s: Sandwich| s.swap_info.target_pair,
                ));
            }
            i = i + 1;
        }
        proof {
            assert(self.sandwiches@.take(n as int) =~= self.sandwiches@);
        }
        r
    }

    /// The canonical bundle identity: each victim hash truncated to its
    /// leading 4 bytes, the truncations sorted and deduplicated, rendered in
    /// hex and joined by `-`. This string is the deduplication key.
    pub fn bundle_id(&self) -> (r: String)
        ensures
            r@ == spec_join_hex(
                spec_bundle_key(
                    self.sandwiches@.map_values(|s: Sandwich| s.victim_tx.tx_hash),
                ),
            ),
    {
        let hashes = self.victim_tx_hashes();
        let n = hashes.len();
        let mut keys: Vec<u32> = Vec::new();
        let mut i: usize = 0;
        proof {
            assert forall|y: u32| !keys@.contains(y) by {
                if keys@.contains(y) {
                    let t = choose|t: int| 0 <= t < keys@.len() && keys@[t] == y;
                }
            }
            assert forall|y: u32| !spec_has_prefix(hashes@.take(0), y) by {
                if spec_has_prefix(hashes@.take(0), y) {
                    let pre = hashes@.take(0);
                    let t = choose|t: int|
                        0 <= t < pre.len() && (#[trigger] pre[t]).spec_selector() == y;
                }
            }
        }
        while i < n
            invariant
                n == hashes@.len(),
                i <= n,
                spec_sorted_strict(keys@),
                forall|y: u32|
                    #[trigger] keys@.contains(y) <==> spec_has_prefix(
                        hashes@.take(i as int),
                        y,
                    ),
            decreases n - i,
        {
            let ghost k_pre = keys@;
            let x = hashes[i].selector();
            insert_key(&mut keys, x);
            proof {
                let t1 = hashes@.take(i + 1);
                assert(t1 =~= hashes@.take(i as int).push(hashes@[i as int]));
                assert forall|y: u32| #[trigger] keys@.contains(y) <==> spec_has_prefix(
                    t1,
                    y,
                ) by {
                    if keys@.contains(y) {
                        if y == x {
                            assert(t1[i as int].spec_selector() == y);
                        } else {
                            assert(k_pre.contains(y));
                            assert(spec_has_prefix(hashes@.take(i as int), y));
                            let t = choose|t: int|
                                0 <= t < hashes@.take(i as int).len() && (#[trigger] hashes@.take(
                                    i as int,
                                )[t]).spec_selector() == y;
                            assert(t1[t].spec_selector() == y);
                        }
                    }
                    if spec_has_prefix(t1, y) {
                        let t = choose|t: int|
                            0 <= t < t1.len() && (#[trigger] t1[t]).spec_selector() == y;
                        if t < i {
                            assert(hashes@.take(i as int)[t].spec_selector() == y);
                            assert(spec_has_prefix(hashes@.take(i as int), y));
                        } else {
                            assert(t1[t] == hashes@[i as int]);
                        }
                    }
                }
            }
            i = i + 1;
        }
        proof {
            assert(hashes@.take(n as int) =~= hashes@);
            lemma_bundle_key_props(hashes@);
            lemma_sorted_strict_canonical(keys@, spec_bundle_key(hashes@));
        }
        let m = keys.len();
        let mut s = String::new();
        let mut k: usize = 0;
        proof {
            assert(keys@.take(0) =~= Seq::<u32>::empty());
            assert(s@ =~= spec_join_hex(keys@.take(0)));
        }
        while k < m
            invariant
                m == keys@.len(),
                k <= m,
                s@ == spec_join_hex(keys@.take(k as int)),
            decreases m - k,
        {
            if k > 0 {
                proof {
                    reveal_strlit("-");
                }
                s.append("-");
            }
            append_hex32(&mut s, keys[k]);
            proof {
                lemma_join_hex_snoc(keys@.take(k as int), keys@[k as int]);
                assert(keys@.take(k + 1) =~= keys@.take(k as int).push(keys@[k as int]));
                assert(s@ =~= spec_join_hex(keys@.take(k + 1)));
            }
            k = k + 1;
        }
        proof {
            assert(keys@.take(m as int) =~= keys@);
        }
        s
    }
}

/// Selector of the constant-product pair's swap function.
pub const V2_SWAP_FUNCTION_SELECTOR: u32 = 0x022c0d9f;

/// Calldata of a swap call on a constant-product pair: the selector, the two
/// requested output amounts, the recipient, and an empty extra-data argument
/// (offset word, then zero length).
pub open spec fn spec_swap_calldata(amount0_out: u128, amount1_out: u128, to: Address) -> Seq<u8> {
    crate::abi::spec_be_bytes4(V2_SWAP_FUNCTION_SELECTOR) + crate::abi::spec_u128_word(amount0_out)
        + crate::abi::spec_u128_word(amount1_out) + crate::abi::spec_address_word(to)
        + crate::abi::spec_u128_word(0x80) + crate::abi::spec_u128_word(0)
}

/// Builds the swap calldata for given output amounts and recipient.
fn encode_v2_swap_call(amount0_out: u128, amount1_out: u128, to: Address) -> (r: Vec<u8>)
    ensures
        r@ == spec_swap_calldata(amount0_out, amount1_out, to),
{
    let mut r: Vec<u8> = Vec::new();
    crate::abi::push_be_bytes4(&mut r, V2_SWAP_FUNCTION_SELECTOR);
    crate::abi::push_u128_word(&mut r, amount0_out);
    crate::abi::push_u128_word(&mut r, amount1_out);
    crate::abi::push_address_word(&mut r, to);
    crate::abi::push_u128_word(&mut r, 0x80);
    crate::abi::push_u128_word(&mut r, 0);
    proof {
        assert(r@ =~= spec_swap_calldata(amount0_out, amount1_out, to));
    }
    r
}

impl BatchSandwich {
    /// Calldata of the front-run leg: a buy drawing `amount_out` of the
    /// target token -- the pool token the main currency is not -- to `to`.
    pub fn encode_frontrun_tx(swap_info: &SwapInfo, amount_out: u128, to: Address) -> (r: Vec<
        u8,
    >)
        ensures
            swap_info.token0_is_main ==> r@ == spec_swap_calldata(0, amount_out, to),
            !swap_info.token0_is_main ==> r@ == spec_swap_calldata(amount_out, 0, to),
    {
        if swap_info.token0_is_main {
            encode_v2_swap_call(0, amount_out, to)
        } else {
            encode_v2_swap_call(amount_out, 0, to)
        }
    }

    /// Calldata of the back-run leg: selling the acquired target-token
    /// balance, drawing `amount_out` of the main currency to `to`.
    pub fn encode_backrun_tx(swap_info: &SwapInfo, amount_out: u128, to: Address) -> (r: Vec<u8>)
        ensures
            swap_info.token0_is_main ==> r@ == spec_swap_calldata(amount_out, 0, to),
            !swap_info.token0_is_main ==> r@ == spec_swap_calldata(0, amount_out, to),
    {
        if swap_info.token0_is_main {
            encode_v2_swap_call(amount_out, 0, to)
        } else {
            encode_v2_swap_call(0, amount_out, to)
        }
    }
}

/// What simulating one sandwich at one input size reported: the revenue of
/// the two legs in main currency (negative when the round trip loses), their
/// gas use, and the access lists and calldata observed.
#[derive(Debug)]
pub struct SimulatedSandwich {
    pub amount_in: u128,
    pub revenue: i128,
    pub front_gas_used: u64,
    pub back_gas_used: u64,
    pub front_access_list: AccessList,
    pub back_access_list: AccessList,
    pub front_calldata: Vec<u8>,
    pub back_calldata: Vec<u8>,
}

/// Net profit of a simulated sandwich at the target block's base fee: its
/// revenue minus the gas cost of both legs.
pub open spec fn spec_net_profit(s: SimulatedSandwich, base_fee: u128) -> int {
    s.revenue - (s.front_gas_used + s.back_gas_used) * base_fee
}

/// Value bounds under which a net profit is computed without overflow:
/// realistic gas, fee and revenue magnitudes.
pub open spec fn spec_outcome_bounded(s: SimulatedSandwich) -> bool {
    &&& s.front_gas_used < 0x1_0000_0000
    &&& s.back_gas_used < 0x1_0000_0000
    &&& -0x1_0000_0000_0000_0000_0000_0000 < s.revenue < 0x1_0000_0000_0000_0000_0000_0000
}

/// The chosen sandwich carries the winning outcome's input, its net profit,
/// and that outcome's gas, access lists and calldata.
pub open spec fn spec_optimized_matches(
    o: OptimizedSandwich,
    s: SimulatedSandwich,
    base_fee: u128,
) -> bool {
    &&& o.amount_in == s.amount_in
    &&& o.max_revenue == spec_net_profit(s, base_fee)
    &&& o.front_gas_used == s.front_gas_used
    &&& o.back_gas_used == s.back_gas_used
    &&& o.front_access_list == s.front_access_list
    &&& o.back_access_list == s.back_access_list
    &&& o.front_calldata == s.front_calldata
    &&& o.back_calldata == s.back_calldata
}

/// Net profit of one outcome, exactly.
fn net_profit(s: &SimulatedSandwich, base_fee: u128) -> (r: i128)
    requires
        base_fee < 0x1_0000_0000_0000_0000,
        spec_outcome_bounded(*s),
    ensures
        r == spec_net_profit(*s, base_fee),
{
    let gas: u128 = s.front_gas_used as u128 + s.back_gas_used as u128;
    proof {
        vstd::arithmetic::mul::lemma_mul_upper_bound(
            gas as int,
            0x1_ffff_ffff,
            base_fee as int,
            0xffff_ffff_ffff_ffff,
        );
    }
    let cost: u128 = gas * base_fee;
    s.revenue - (cost as i128)
}

/// The profit optimizer's decision: among the simulated outcomes, the one
/// whose net profit is greatest, accepted only when that profit clears the
/// configured margin; below-margin opportunities are discarded.
pub fn choose_optimal(outcomes: Vec<SimulatedSandwich>, base_fee: u128, min_margin: u128) -> (r:
    Option<OptimizedSandwich>)
    requires
        base_fee < 0x1_0000_0000_0000_0000,
        min_margin < 0x1_0000_0000_0000_0000_0000_0000,
        forall|i: int|
            0 <= i < outcomes@.len() ==> spec_outcome_bounded(#[trigger] outcomes@[i]),
    ensures
        r is Some <==> exists|i: int|
            0 <= i < outcomes@.len() && spec_net_profit(#[trigger] outcomes@[i], base_fee)
                > min_margin,
        r is Some ==> exists|i: int|
            0 <= i < outcomes@.len() && spec_optimized_matches(
                r->0,
                #[trigger] outcomes@[i],
                base_fee,
            ) && spec_net_profit(outcomes@[i], base_fee) > min_margin && (forall|j: int|
                0 <= j < outcomes@.len() ==> spec_net_profit(outcomes@[j], base_fee)
                    <= spec_net_profit(outcomes@[i], base_fee)),
{
    let n = outcomes.len();
    if n == 0 {
        proof {
            assert forall|i: int|
                !(0 <= i < outcomes@.len() && spec_net_profit(
                    #[trigger] outcomes@[i],
                    base_fee,
                ) > min_margin) by {}
        }
        return None;
    }
    let mut best: usize = 0;
    let mut best_net: i128 = net_profit(&outcomes[0], base_fee);
    let mut i: usize = 1;
    while i < n
        invariant
            n == outcomes@.len(),
            1 <= i <= n,
            best < i,
            base_fee < 0x1_0000_0000_0000_0000,
            forall|t: int|
                0 <= t < outcomes@.len() ==> spec_outcome_bounded(#[trigger] outcomes@[t]),
            best_net == spec_net_profit(outcomes@[best as int], base_fee),
            forall|j: int|
                0 <= j < i ==> spec_net_profit(#[trigger] outcomes@[j], base_fee) <= best_net,
        decreases n - i,
    {
        let net_i = net_profit(&outcomes[i], base_fee);
        if net_i > best_net {
            best = i;
            best_net = net_i;
        }
        i = i + 1;
    }
    if best_net <= (min_margin as i128) {
        proof {
            assert forall|i2: int|
                !(0 <= i2 < outcomes@.len() && spec_net_profit(
                    #[trigger] outcomes@[i2],
                    base_fee,
                ) > min_margin) by {}
        }
        return None;
    }
    let ghost b = best as int;
    let ghost all0 = outcomes@;
    let mut rest = outcomes;
    let s = rest.remove(best);
    let r = OptimizedSandwich {
        amount_in: s.amount_in,
        max_revenue: best_net as u128,
        front_gas_used: s.front_gas_used,
        back_gas_used: s.back_gas_used,
        front_access_list: s.front_access_list,
        back_access_list: s.back_access_list,
        front_calldata: s.front_calldata,
        back_calldata: s.back_calldata,
    };
    proof {
        assert(spec_optimized_matches(r, all0[b], base_fee));
    }
    Some(r)
}

/// Evenly spaced probe inputs over the feasible range, for the optimizer's
/// search: the smallest amount, then fixed increments of the range split into
/// `steps` parts.
pub fn probe_amounts(min_amount: u128, max_amount: u128, steps: usize) -> (r: Vec<u128>)
    requires
        min_amount <= max_amount,
        1 <= steps < 0xffff_ffff,
    ensures
        r@.len() == steps + 1,
        forall|i: int|
            0 <= i <= steps ==> #[trigger] r@[i] == min_amount + ((max_amount
                - min_amount) as int / (steps as int)) * i,
{
    let range: u128 = max_amount - min_amount;
    let step: u128 = range / (steps as u128);
    let mut r: Vec<u128> = Vec::new();
    let mut i: usize = 0;
    while i <= steps
        invariant
            1 <= steps < 0xffff_ffff,
            min_amount <= max_amount,
            range == max_amount - min_amount,
            step == range / (steps as u128),
            i <= steps + 1,
            r@.len() == i,
            forall|j: int| 0 <= j < i ==> #[trigger] r@[j] == min_amount + step * j,
        decreases steps + 1 - i,
    {
        proof {
            lemma_mul_inequality(i as int, steps as int, step as int);
            vstd::arithmetic::div_mod::lemma_remainder_lower(range as int, steps as int);
            vstd::arithmetic::mul::lemma_mul_is_commutative(step as int, i as int);
            vstd::arithmetic::mul::lemma_mul_is_commutative(steps as int, step as int);
            assert(step as int * (i as int) <= range as int);
        }
        r.push(min_amount + step * (i as u128));
        i = i + 1;
    }
    r
}

} // verus!
