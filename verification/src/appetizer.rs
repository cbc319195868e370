//! The sandwich-candidate builder: for every buy-side swap a tracked
//! transaction performs, one candidate with a small fixed probe input.
//!
//! The probe only measures marginal price impact before the optimizer
//! searches for the true input; it is never submitted on-chain.

use vstd::prelude::*;

use crate::abi::copy_bytes;
use crate::evm::VictimTx;
use crate::simulation::{PendingTxInfo, Sandwich, SwapDirection, SwapInfo};
use crate::streams::NewBlock;
use crate::types::{Address, Word256};
use crate::utils::{is_weth, spec_is_main_currency, spec_usdc, spec_usdt, spec_weth, usdc, usdt};

verus! {

/// Probe input for a candidate quoted in `main_currency`: a hundredth of a
/// unit of the wrapped native asset (18 decimals), ten whole units of a
/// stable (6 decimals). An unrecognized address defaults to the native
/// asset's scale.
pub open spec fn spec_probe_amount(main_currency: Address) -> u128 {
    if main_currency == spec_weth() {
        10_000_000_000_000_000
    } else if main_currency == spec_usdt() || main_currency == spec_usdc() {
        10_000_000
    } else {
        10_000_000_000_000_000_000
    }
}

pub fn probe_amount(main_currency: Address) -> (r: u128)
    ensures
        r == spec_probe_amount(main_currency),
{
    if is_weth(main_currency) {
        10_000_000_000_000_000
    } else if main_currency == usdt() || main_currency == usdc() {
        10_000_000
    } else {
        10_000_000_000_000_000_000
    }
}

/// The buy-side swaps of a transaction, in extraction order. Sell-side
/// victims are not targeted: front-running a sell would need the bot to hold
/// the target token already.
pub open spec fn spec_buy_swaps(s: Seq<SwapInfo>) -> Seq<SwapInfo>
    decreases s.len(),
{
    if s.len() == 0 {
        Seq::empty()
    } else {
        (if s[0].direction is Buy {
            seq![s[0]]
        } else {
            Seq::empty()
        }) + spec_buy_swaps(s.drop_first())
    }
}

/// The victim snapshot a candidate must carry: the transaction's fields
/// frozen at candidate-building time, with a missing recipient defaulting to
/// the zero address.
pub open spec fn spec_victim_matches(
    v: VictimTx,
    info: PendingTxInfo,
    tx_hash: Word256,
    victim_gas_price: u128,
) -> bool {
    &&& v.tx_hash == tx_hash
    &&& v.from == info.pending_tx.tx.from
    &&& v.to == (match info.pending_tx.tx.to {
        Some(a) => a,
        None => Address { hi: 0, lo: 0 },
    })
    &&& v.data@ == info.pending_tx.tx.input@
    &&& v.value == info.pending_tx.tx.value
    &&& v.gas_price == victim_gas_price
    &&& v.gas_limit == Some(info.pending_tx.tx.gas)
}

/// Builds one probe-sized sandwich candidate for every buy-side swap of a
/// tracked transaction, each with its own frozen victim snapshot and no
/// optimizer result yet.
pub fn appetizer(
    new_block: &NewBlock,
    tx_hash: Word256,
    victim_gas_price: u128,
    pending_tx_info: &PendingTxInfo,
) -> (r: Vec<Sandwich>)
    ensures
        r@.map_values(|s: Sandwich| s.swap_info) == spec_buy_swaps(
            pending_tx_info.touched_pairs@,
        ),
        forall|j: int|
            0 <= j < r@.len() ==> (#[trigger] r@[j]).amount_in == spec_probe_amount(
                r@[j].swap_info.main_currency,
            ),
        forall|j: int| 0 <= j < r@.len() ==> (#[trigger] r@[j]).optimized_sandwich is None,
        forall|j: int|
            0 <= j < r@.len() ==> spec_victim_matches(
                (#[trigger] r@[j]).victim_tx,
                *pending_tx_info,
                tx_hash,
                victim_gas_price,
            ),
{
    let swaps = &pending_tx_info.touched_pairs;
    let n = swaps.len();
    let mut r: Vec<Sandwich> = Vec::new();
    let mut i: usize = 0;
    proof {
        assert(swaps@.skip(0) =~= swaps@);
        assert(r@.map_values(|s: Sandwich| s.swap_info) =~= Seq::<SwapInfo>::empty());
    }
    while i < n
        invariant
            n == swaps@.len(),
            i <= n,
            swaps@ == pending_tx_info.touched_pairs@,
            r@.map_values(|s: Sandwich| s.swap_info) + spec_buy_swaps(swaps@.skip(i as int))
                == spec_buy_swaps(swaps@),
            forall|j: int|
                0 <= j < r@.len() ==> (#[trigger] r@[j]).amount_in == spec_probe_amount(
                    r@[j].swap_info.main_currency,
                ),
            forall|j: int| 0 <= j < r@.len() ==> (#[trigger] r@[j]).optimized_sandwich is None,
            forall|j: int|
                0 <= j < r@.len() ==> spec_victim_matches(
                    (#[trigger] r@[j]).victim_tx,
                    *pending_tx_info,
                    tx_hash,
                    victim_gas_price,
                ),
        decreases n - i,
    {
        let ghost r_pre = r@;
        let ghost tail = swaps@.skip(i as int);
        proof {
            assert(tail[0] == swaps@[i as int]);
            assert(tail.drop_first() =~= swaps@.skip(i + 1));
        }
        let info = swaps[i];
        match info.direction {
            SwapDirection::Sell => {
                proof {
                    assert(r@.map_values(|s: Sandwich| s.swap_info) + spec_buy_swaps(
                        swaps@.skip(i + 1),
                    ) =~= spec_buy_swaps(swaps@));
                }
            },
            SwapDirection::Buy => {
                let small_amount_in = probe_amount(info.main_currency);
                let victim_tx = VictimTx {
                    tx_hash,
                    from: pending_tx_info.pending_tx.tx.from,
                    to: match pending_tx_info.pending_tx.tx.to {
                        Some(a) => a,
                        None => Address::zero(),
                    },
                    data: copy_bytes(&pending_tx_info.pending_tx.tx.input),
                    value: pending_tx_info.pending_tx.tx.value,
                    gas_price: victim_gas_price,
                    gas_limit: Some(pending_tx_info.pending_tx.tx.gas),
                };
                let sandwich = Sandwich {
                    amount_in: small_amount_in,
                    swap_info: info,
                    victim_tx,
                    optimized_sandwich: None,
                };
                r.push(sandwich);
                proof {
                    assert(r@.map_values(|s: Sandwich| s.swap_info) =~= r_pre.map_values(
                        |s: Sandwich| s.swap_info,
                    ).push(info));
                    assert(spec_buy_swaps(tail) =~= seq![info] + spec_buy_swaps(
                        swaps@.skip(i + 1),
                    ));
                    assert(r@.map_values(|s: Sandwich| s.swap_info) + spec_buy_swaps(
                        swaps@.skip(i + 1),
                    ) =~= spec_buy_swaps(swaps@));
                }
            },
        }
        i = i + 1;
    }
    proof {
        assert(spec_buy_swaps(swaps@.skip(n as int)) =~= Seq::<SwapInfo>::empty());
        assert(r@.map_values(|s: Sandwich| s.swap_info) =~= spec_buy_swaps(swaps@));
    }
    r
}

} // verus!
