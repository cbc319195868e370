//! The control loop's decision core: the authoritative table of transactions
//! currently in flight, and how a block event or a pending-transaction event
//! changes it.
//!
//! The surrounding program owns the actual loop: it receives events, performs
//! the chain calls (block bodies, receipts, traces) and hands their plain
//! results in; only the functions here mutate the table.

use vstd::prelude::*;

use crate::simulation::{PendingTxInfo, Sandwich, SwapInfo};
use crate::streams::{
    gas_price_admissible, spec_gas_price_admissible, FeeEncoding, NewBlock, NewPendingTx,
};
use crate::types::Word256;

verus! {

/// How many blocks a pending transaction may stay tracked after it was first
/// seen.
pub const MAX_TRACKED_AGE: u64 = 3;

/// One tracked in-flight transaction together with everything derived from
/// it: the swaps extraction found and the sandwich candidates built on them.
#[derive(Debug)]
pub struct TrackedTx {
    pub info: PendingTxInfo,
    pub candidates: Vec<Sandwich>,
}

impl TrackedTx {
    pub open spec fn hash(self) -> Word256 {
        self.info.pending_tx.tx.hash
    }

    pub open spec fn seen_block(self) -> u64 {
        self.info.pending_tx.added_block->0
    }

    pub open spec fn seen_is_set(self) -> bool {
        self.info.pending_tx.added_block is Some
    }
}

/// Whether an entry survives the block event `block`: it was not mined in
/// that block and is younger than `MAX_TRACKED_AGE`.
pub open spec fn spec_keep_at(e: TrackedTx, block: NewBlock, mined: Seq<Word256>) -> bool {
    !mined.contains(e.hash()) && block.block_number < e.seen_block() + MAX_TRACKED_AGE
}

/// Some entry of `s` is keyed by hash `h`.
pub open spec fn seq_tracks(s: Seq<TrackedTx>, h: Word256) -> bool {
    exists|i: int| 0 <= i < s.len() && (#[trigger] s[i]).hash() == h
}

pub open spec fn seq_index_of(s: Seq<TrackedTx>, h: Word256) -> int {
    choose|i: int| 0 <= i < s.len() && (#[trigger] s[i]).hash() == h
}

/// The entry keyed by `h`; meaningful when `seq_tracks(s, h)` holds.
pub open spec fn seq_entry_of(s: Seq<TrackedTx>, h: Word256) -> TrackedTx {
    s[seq_index_of(s, h)]
}

/// No two entries share a hash.
pub open spec fn seq_unique_hashes(s: Seq<TrackedTx>) -> bool {
    forall|i: int, j: int|
        0 <= i < j < s.len() ==> (#[trigger] s[i]).hash() != (#[trigger] s[j]).hash()
}

/// Every entry has its first-seen block set.
pub open spec fn seq_seen_set(s: Seq<TrackedTx>) -> bool {
    forall|i: int| 0 <= i < s.len() ==> (#[trigger] s[i]).seen_is_set()
}

/// Under unique hashes, the entry at any index is the one its hash resolves
/// to.
pub proof fn lemma_seq_entry_at(s: Seq<TrackedTx>, i: int)
    requires
        seq_unique_hashes(s),
        0 <= i < s.len(),
    ensures
        seq_tracks(s, s[i].hash()),
        seq_index_of(s, s[i].hash()) == i,
        seq_entry_of(s, s[i].hash()) == s[i],
{
    let h = s[i].hash();
    assert(0 <= i < s.len() && s[i].hash() == h);
    let j = seq_index_of(s, h);
    assert(0 <= j < s.len() && s[j].hash() == h);
}

/// Tracking in a non-empty table splits into the head entry and the rest.
pub proof fn lemma_seq_tracks_cons(s: Seq<TrackedTx>, h: Word256)
    requires
        s.len() > 0,
    ensures
        seq_tracks(s, h) <==> (s[0].hash() == h || seq_tracks(s.drop_first(), h)),
{
    let rest = s.drop_first();
    if seq_tracks(s, h) {
        let i = seq_index_of(s, h);
        assert(0 <= i < s.len() && s[i].hash() == h);
        if i > 0 {
            assert(rest[i - 1] == s[i]);
        }
    }
    if seq_tracks(rest, h) {
        let j = seq_index_of(rest, h);
        assert(0 <= j < rest.len() && rest[j].hash() == h);
        assert(s[j + 1] == rest[j]);
    }
    if s[0].hash() == h {
        assert(0 <= 0 < s.len() && s[0].hash() == h);
    }
}

/// Resolving a hash in a non-empty table with unique hashes: the head wins on
/// its own hash, anything else resolves in the rest.
pub proof fn lemma_seq_entry_cons(s: Seq<TrackedTx>, h: Word256)
    requires
        seq_unique_hashes(s),
        s.len() > 0,
        seq_tracks(s, h),
    ensures
        s[0].hash() == h ==> seq_entry_of(s, h) == s[0],
        s[0].hash() != h ==> seq_tracks(s.drop_first(), h) && seq_entry_of(s, h) == seq_entry_of(
            s.drop_first(),
            h,
        ),
{
    let rest = s.drop_first();
    let i = seq_index_of(s, h);
    assert(0 <= i < s.len() && s[i].hash() == h);
    if s[0].hash() == h {
        lemma_seq_entry_at(s, 0);
    } else {
        assert(i > 0);
        assert(rest[i - 1] == s[i]);
        assert(seq_tracks(rest, h));
        assert(seq_unique_hashes(rest)) by {
            lemma_seq_drop_first(s);
        }
        lemma_seq_entry_at(rest, i - 1);
    }
}

/// Uniqueness and seen-set flags carry over to the rest of the table.
pub proof fn lemma_seq_drop_first(s: Seq<TrackedTx>)
    requires
        s.len() > 0,
    ensures
        seq_unique_hashes(s) ==> seq_unique_hashes(s.drop_first()),
        seq_seen_set(s) ==> seq_seen_set(s.drop_first()),
{
    let rest = s.drop_first();
    assert(forall|i: int| 0 <= i < rest.len() ==> rest[i] == s[i + 1]);
}

/// The entries that survive the block event, in table order.
pub open spec fn spec_prune(txs: Seq<TrackedTx>, block: NewBlock, mined: Seq<Word256>) -> Seq<
    TrackedTx,
>
    decreases txs.len(),
{
    if txs.len() == 0 {
        Seq::empty()
    } else {
        (if spec_keep_at(txs[0], block, mined) {
            seq![txs[0]]
        } else {
            Seq::empty()
        }) + spec_prune(txs.drop_first(), block, mined)
    }
}

/// What pruning does to the table, entry by entry: exactly the entries that
/// were neither mined nor aged out survive, unchanged.
pub proof fn lemma_prune_props(txs: Seq<TrackedTx>, block: NewBlock, mined: Seq<Word256>)
    requires
        seq_unique_hashes(txs),
        seq_seen_set(txs),
    ensures
        seq_unique_hashes(spec_prune(txs, block, mined)),
        seq_seen_set(spec_prune(txs, block, mined)),
        forall|h: Word256|
            #![trigger seq_tracks(spec_prune(txs, block, mined), h)]
            #![trigger seq_tracks(txs, h)]
            seq_tracks(spec_prune(txs, block, mined), h) <==> (seq_tracks(txs, h) && spec_keep_at(
                seq_entry_of(txs, h),
                block,
                mined,
            )),
        forall|h: Word256|
            #![trigger seq_entry_of(spec_prune(txs, block, mined), h)]
            #![trigger seq_tracks(txs, h)]
            seq_tracks(spec_prune(txs, block, mined), h) ==> seq_entry_of(
                spec_prune(txs, block, mined),
                h,
            ) == seq_entry_of(txs, h),
    decreases txs.len(),
{
    let out = spec_prune(txs, block, mined);
    if txs.len() == 0 {
        assert forall|h: Word256| !seq_tracks(out, h) by {
            if seq_tracks(out, h) {
                let i = seq_index_of(out, h);
                assert(0 <= i < out.len());
            }
        }
    } else {
        let e = txs[0];
        let rest = txs.drop_first();
        let rest_out = spec_prune(rest, block, mined);
        lemma_seq_drop_first(txs);
        lemma_prune_props(rest, block, mined);
        if spec_keep_at(e, block, mined) {
            assert(out == seq![e] + rest_out);
            assert(out.len() > 0 && out[0] == e);
            assert(out.drop_first() =~= rest_out);
            // the head's hash is absent from the rest, so it is absent from
            // the pruned rest
            assert(!seq_tracks(rest, e.hash())) by {
                if seq_tracks(rest, e.hash()) {
                    let j = seq_index_of(rest, e.hash());
                    assert(0 <= j < rest.len() && rest[j].hash() == e.hash());
                    assert(txs[j + 1] == rest[j]);
                }
            }
            assert(seq_unique_hashes(out)) by {
                assert forall|i: int, j: int| 0 <= i < j < out.len() implies (
                #[trigger] out[i]).hash() != (#[trigger] out[j]).hash() by {
                    if i == 0 {
                        assert(out[j] == rest_out[j - 1]);
                        lemma_seq_entry_at(rest_out, j - 1);
                        if out[j].hash() == e.hash() {
                            assert(seq_tracks(rest_out, e.hash()));
                        }
                    } else {
                        assert(out[i] == rest_out[i - 1] && out[j] == rest_out[j - 1]);
                    }
                }
            }
            assert(seq_seen_set(out)) by {
                assert forall|i: int| 0 <= i < out.len() implies (
                #[trigger] out[i]).seen_is_set() by {
                    if i > 0 {
                        assert(out[i] == rest_out[i - 1]);
                    } else {
                        assert(out[0] == txs[0]);
                    }
                }
            }
            assert forall|h: Word256| seq_tracks(out, h) <==> (seq_tracks(txs, h) && spec_keep_at(
                seq_entry_of(txs, h),
                block,
                mined,
            )) by {
                lemma_seq_tracks_cons(out, h);
                lemma_seq_tracks_cons(txs, h);
                if h == e.hash() {
                    lemma_seq_entry_at(txs, 0);
                    lemma_seq_entry_at(out, 0);
                } else {
                    if seq_tracks(txs, h) {
                        lemma_seq_entry_cons(txs, h);
                    }
                }
            }
            assert forall|h: Word256| seq_tracks(out, h) implies seq_entry_of(out, h)
                == seq_entry_of(txs, h) by {
                lemma_seq_tracks_cons(out, h);
                lemma_seq_entry_cons(out, h);
                if h == e.hash() {
                    lemma_seq_entry_at(txs, 0);
                    lemma_seq_entry_at(out, 0);
                } else {
                    lemma_seq_tracks_cons(txs, h);
                    lemma_seq_entry_cons(txs, h);
                }
            }
        } else {
            assert(out =~= rest_out);
            // the dropped head tracks nowhere in the pruned rest
            assert(!seq_tracks(rest, e.hash())) by {
                if seq_tracks(rest, e.hash()) {
                    let j = seq_index_of(rest, e.hash());
                    assert(0 <= j < rest.len() && rest[j].hash() == e.hash());
                    assert(txs[j + 1] == rest[j]);
                }
            }
            assert forall|h: Word256| seq_tracks(out, h) <==> (seq_tracks(txs, h) && spec_keep_at(
                seq_entry_of(txs, h),
                block,
                mined,
            )) by {
                lemma_seq_tracks_cons(txs, h);
                if h == e.hash() {
                    lemma_seq_entry_at(txs, 0);
                } else {
                    if seq_tracks(txs, h) {
                        lemma_seq_entry_cons(txs, h);
                    }
                }
            }
            assert forall|h: Word256| seq_tracks(out, h) implies seq_entry_of(out, h)
                == seq_entry_of(txs, h) by {
                if h == e.hash() {
                    assert(seq_tracks(rest, h));
                } else {
                    lemma_seq_tracks_cons(txs, h);
                    lemma_seq_entry_cons(txs, h);
                }
            }
        }
    }
}

/// What appending an entry with a fresh hash does to the table.
pub proof fn lemma_push_props(s: Seq<TrackedTx>, e: TrackedTx)
    requires
        seq_unique_hashes(s),
        !seq_tracks(s, e.hash()),
    ensures
        seq_unique_hashes(s.push(e)),
        seq_seen_set(s) && e.seen_is_set() ==> seq_seen_set(s.push(e)),
        forall|h: Word256|
            #![trigger seq_tracks(s.push(e), h)]
            #![trigger seq_tracks(s, h)]
            seq_tracks(s.push(e), h) <==> (h == e.hash() || seq_tracks(s, h)),
        seq_entry_of(s.push(e), e.hash()) == e,
        forall|h: Word256|
            #![trigger seq_entry_of(s.push(e), h)]
            #![trigger seq_entry_of(s, h)]
            h != e.hash() && seq_tracks(s, h) ==> seq_entry_of(s.push(e), h) == seq_entry_of(s, h),
{
    let s2 = s.push(e);
    assert(s2[s.len() as int] == e);
    assert(seq_unique_hashes(s2)) by {
        assert forall|i: int, j: int| 0 <= i < j < s2.len() implies (#[trigger] s2[i]).hash() != (
        #[trigger] s2[j]).hash() by {
            if j == s.len() {
                if s2[i].hash() == e.hash() {
                    assert(s[i].hash() == e.hash());
                    assert(seq_tracks(s, e.hash()));
                }
            } else {
                assert(s2[i] == s[i] && s2[j] == s[j]);
            }
        }
    }
    if seq_seen_set(s) && e.seen_is_set() {
        assert forall|i: int| 0 <= i < s2.len() implies (#[trigger] s2[i]).seen_is_set() by {
            if i < s.len() {
                assert(s2[i] == s[i]);
            }
        }
    }
    assert forall|h: Word256| seq_tracks(s2, h) <==> (h == e.hash() || seq_tracks(s, h)) by {
        if seq_tracks(s2, h) {
            let i = seq_index_of(s2, h);
            assert(0 <= i < s2.len() && s2[i].hash() == h);
            if i < s.len() {
                assert(s[i] == s2[i]);
            }
        }
        if seq_tracks(s, h) {
            let i = seq_index_of(s, h);
            assert(0 <= i < s.len() && s[i].hash() == h);
            assert(s2[i] == s[i]);
        }
        if h == e.hash() {
            assert(s2[s.len() as int].hash() == h);
        }
    }
    lemma_seq_entry_at(s2, s.len() as int);
    assert forall|h: Word256| h != e.hash() && seq_tracks(s, h) implies seq_entry_of(s2, h)
        == seq_entry_of(s, h) by {
        let i = seq_index_of(s, h);
        assert(0 <= i < s.len() && s[i].hash() == h);
        lemma_seq_entry_at(s, i);
        assert(s2[i] == s[i]);
        lemma_seq_entry_at(s2, i);
    }
}

/// What replacing the entry at `i` by one with the same hash does to the
/// table.
pub proof fn lemma_update_props(s: Seq<TrackedTx>, i: int, e: TrackedTx)
    requires
        seq_unique_hashes(s),
        0 <= i < s.len(),
        e.hash() == s[i].hash(),
    ensures
        seq_unique_hashes(s.update(i, e)),
        seq_seen_set(s) && e.seen_is_set() ==> seq_seen_set(s.update(i, e)),
        forall|h: Word256|
            #![trigger seq_tracks(s.update(i, e), h)]
            #![trigger seq_tracks(s, h)]
            seq_tracks(s.update(i, e), h) <==> seq_tracks(s, h),
        seq_entry_of(s.update(i, e), e.hash()) == e,
        forall|h: Word256|
            #![trigger seq_entry_of(s.update(i, e), h)]
            #![trigger seq_entry_of(s, h)]
            h != e.hash() && seq_tracks(s, h) ==> seq_entry_of(s.update(i, e), h) == seq_entry_of(
                s,
                h,
            ),
{
    let s2 = s.update(i, e);
    assert(s2[i] == e);
    assert(forall|j: int| 0 <= j < s.len() && j != i ==> s2[j] == s[j]);
    assert(seq_unique_hashes(s2)) by {
        assert forall|j1: int, j2: int| 0 <= j1 < j2 < s2.len() implies (
        #[trigger] s2[j1]).hash() != (#[trigger] s2[j2]).hash() by {
            assert(s[j1].hash() != s[j2].hash());
            if j1 == i {
                assert(s2[j1].hash() == s[i].hash());
            }
            if j2 == i {
                assert(s2[j2].hash() == s[i].hash());
            }
        }
    }
    if seq_seen_set(s) && e.seen_is_set() {
        assert forall|j: int| 0 <= j < s2.len() implies (#[trigger] s2[j]).seen_is_set() by {
            if j != i {
                assert(s2[j] == s[j]);
            }
        }
    }
    assert forall|h: Word256| seq_tracks(s2, h) <==> seq_tracks(s, h) by {
        if seq_tracks(s2, h) {
            let j = seq_index_of(s2, h);
            assert(0 <= j < s2.len() && s2[j].hash() == h);
            assert(s[j].hash() == h);
        }
        if seq_tracks(s, h) {
            let j = seq_index_of(s, h);
            assert(0 <= j < s.len() && s[j].hash() == h);
            assert(s2[j].hash() == h);
        }
    }
    lemma_seq_entry_at(s2, i);
    assert forall|h: Word256| h != e.hash() && seq_tracks(s, h) implies seq_entry_of(s2, h)
        == seq_entry_of(s, h) by {
        let j = seq_index_of(s, h);
        assert(0 <= j < s.len() && s[j].hash() == h);
        lemma_seq_entry_at(s, j);
        assert(j != i);
        assert(s2[j] == s[j]);
        lemma_seq_entry_at(s2, j);
    }
}

/// Law: a legacy-encoded transaction declaring less than the base fee is
/// never admissible.
pub proof fn lemma_underpriced_legacy_rejected(gas_price: u128, base_fee: u128)
    requires
        gas_price < base_fee,
    ensures
        !spec_gas_price_admissible(FeeEncoding::Legacy { gas_price }, base_fee),
{
}

/// The event-fusion tracker: the head block's fee context and the table of
/// pending transactions currently in flight, keyed by transaction hash.
#[derive(Debug)]
pub struct PendingTxTracker {
    pub block: NewBlock,
    pub txs: Vec<TrackedTx>,
}

impl PendingTxTracker {
    /// Well-formedness: every entry has its first-seen block set and is
    /// younger than `MAX_TRACKED_AGE` relative to the head block, and no two
    /// entries share a hash.
    pub open spec fn wf(self) -> bool {
        &&& seq_seen_set(self.txs@)
        &&& seq_unique_hashes(self.txs@)
        &&& forall|i: int|
            0 <= i < self.txs@.len() ==> self.block.block_number < (
            #[trigger] self.txs@[i]).seen_block() + MAX_TRACKED_AGE
    }

    /// The table holds an entry for hash `h`.
    pub open spec fn tracks(self, h: Word256) -> bool {
        seq_tracks(self.txs@, h)
    }

    /// The entry tracked under `h`; meaningful when `tracks(h)` holds.
    pub open spec fn entry_of(self, h: Word256) -> TrackedTx {
        seq_entry_of(self.txs@, h)
    }

    /// A fresh tracker observing the given head block.
    pub fn new(block: NewBlock) -> (r: PendingTxTracker)
        ensures
            r.wf(),
            r.block == block,
            forall|h: Word256| !r.tracks(h),
    {
        let r = PendingTxTracker { block, txs: Vec::new() };
        proof {
            assert forall|h: Word256| !r.tracks(h) by {
                if seq_tracks(r.txs@, h) {
                    let i = seq_index_of(r.txs@, h);
                    assert(0 <= i < r.txs@.len());
                }
            }
        }
        r
    }

    /// Law: a well-formed tracker holds no transaction whose age has reached
    /// `MAX_TRACKED_AGE` blocks.
    pub proof fn lemma_tracked_is_fresh(self, h: Word256)
        requires
            self.wf(),
            self.tracks(h),
        ensures
            self.block.block_number < self.entry_of(h).seen_block() + MAX_TRACKED_AGE,
    {
        let i = seq_index_of(self.txs@, h);
        assert(0 <= i < self.txs@.len() && self.txs@[i].hash() == h);
    }
}

/// True iff `h` occurs in `hashes`.
fn contains_hash(hashes: &Vec<Word256>, h: Word256) -> (r: bool)
    ensures
        r == hashes@.contains(h),
{
    let n = hashes.len();
    let mut i: usize = 0;
    while i < n
        invariant
            n == hashes@.len(),
            i <= n,
            forall|j: int| 0 <= j < i ==> hashes@[j] != h,
        decreases n - i,
    {
        if hashes[i] == h {
            return true;
        }
        i = i + 1;
    }
    false
}

/// First-seen block of an entry.
fn entry_seen(e: &TrackedTx) -> (s: u64)
    requires
        e.seen_is_set(),
    ensures
        s == e.seen_block(),
{
    match e.info.pending_tx.added_block {
        Some(b) => b,
        None => 0,
    }
}

impl PendingTxTracker {
    /// Block event: replace the head-block context, drop every entry mined in
    /// that block (a transaction leaving the table this way confirmed, it was
    /// not cancelled), and prune every entry whose age has reached
    /// `MAX_TRACKED_AGE`. Everything derived from a dropped transaction
    /// leaves with its entry.
    pub fn on_block(&mut self, block: NewBlock, mined_tx_hashes: &Vec<Word256>)
        requires
            old(self).wf(),
        ensures
            final(self).wf(),
            final(self).block == block,
            final(self).txs@ == spec_prune(old(self).txs@, block, mined_tx_hashes@),
            forall|h: Word256|
                final(self).tracks(h) <==> (old(self).tracks(h) && spec_keep_at(
                    old(self).entry_of(h),
                    block,
                    mined_tx_hashes@,
                )),
            forall|h: Word256|
                final(self).tracks(h) ==> final(self).entry_of(h) == old(self).entry_of(h),
    {
        let ghost old0 = *old(self);
        self.block = block;
        let mut kept: Vec<TrackedTx> = Vec::new();
        let n = self.txs.len();
        let mut p: usize = 0;
        proof {
            assert(self.txs@.skip(0) =~= old0.txs@);
            assert(kept@ + spec_prune(old0.txs@.skip(0), block, mined_tx_hashes@) =~= spec_prune(
                old0.txs@,
                block,
                mined_tx_hashes@,
            ));
        }
        while p < n
            invariant
                n == old0.txs@.len(),
                p <= n,
                self.block == block,
                self.txs@ =~= old0.txs@.skip(p as int),
                seq_seen_set(old0.txs@),
                kept@ + spec_prune(old0.txs@.skip(p as int), block, mined_tx_hashes@) == spec_prune(
                    old0.txs@,
                    block,
                    mined_tx_hashes@,
                ),
            decreases n - p,
        {
            let ghost tail = old0.txs@.skip(p as int);
            let e = self.txs.remove(0);
            proof {
                assert(tail[0] == old0.txs@[p as int]);
                assert(old0.txs@[p as int].seen_is_set());
                assert(self.txs@ =~= old0.txs@.skip(p + 1));
                assert(tail.drop_first() =~= old0.txs@.skip(p + 1));
            }
            let seen = entry_seen(&e);
            let keep = !contains_hash(mined_tx_hashes, e.info.pending_tx.tx.hash) && (
            block.block_number as u128) < (seen as u128) + (MAX_TRACKED_AGE as u128);
            proof {
                assert(keep == spec_keep_at(tail[0], block, mined_tx_hashes@));
            }
            let ghost kept_pre = kept@;
            if keep {
                kept.push(e);
            }
            proof {
                if keep {
                    assert(kept@ =~= kept_pre + seq![tail[0]]);
                } else {
                    assert(kept@ =~= kept_pre + Seq::<TrackedTx>::empty());
                }
                assert(spec_prune(tail, block, mined_tx_hashes@) == (if spec_keep_at(
                    tail[0],
                    block,
                    mined_tx_hashes@,
                ) {
                    seq![tail[0]]
                } else {
                    Seq::empty()
                }) + spec_prune(tail.drop_first(), block, mined_tx_hashes@));
                assert(kept@ + spec_prune(old0.txs@.skip(p + 1), block, mined_tx_hashes@)
                    =~= spec_prune(old0.txs@, block, mined_tx_hashes@));
            }
            p = p + 1;
        }
        self.txs = kept;
        proof {
            assert(old0.txs@.skip(n as int).len() == 0);
            assert(spec_prune(old0.txs@.skip(n as int), block, mined_tx_hashes@)
                =~= Seq::<TrackedTx>::empty());
            assert(self.txs@ =~= spec_prune(old0.txs@, block, mined_tx_hashes@));
            lemma_prune_props(old0.txs@, block, mined_tx_hashes@);
            assert forall|i: int| 0 <= i < self.txs@.len() implies self.block.block_number < (
            #[trigger] self.txs@[i]).seen_block() + MAX_TRACKED_AGE by {
                lemma_seq_entry_at(self.txs@, i);
                let h = self.txs@[i].hash();
                assert(seq_tracks(self.txs@, h));
                assert(seq_tracks(spec_prune(old0.txs@, block, mined_tx_hashes@), h));
                assert(seq_entry_of(self.txs@, h) == self.txs@[i]);
                assert(spec_keep_at(seq_entry_of(old0.txs@, h), block, mined_tx_hashes@));
                assert(seq_entry_of(old0.txs@, h) == self.txs@[i]);
            }
        }
    }

    /// Index of the entry tracked under `h`, if any.
    fn index_of_tracked(&self, h: Word256) -> (r: Option<usize>)
        ensures
            match r {
                Some(i) => i < self.txs@.len() && self.txs@[i as int].hash() == h && self.tracks(h),
                None => !self.tracks(h),
            },
    {
        let n = self.txs.len();
        let mut i: usize = 0;
        while i < n
            invariant
                n == self.txs@.len(),
                i <= n,
                forall|j: int| 0 <= j < i ==> (#[trigger] self.txs@[j]).hash() != h,
            decreases n - i,
        {
            if self.txs[i].info.pending_tx.tx.hash == h {
                proof {
                    assert(self.txs@[i as int].hash() == h);
                }
                return Some(i);
            }
            i = i + 1;
        }
        proof {
            if seq_tracks(self.txs@, h) {
                let j = seq_index_of(self.txs@, h);
                assert(0 <= j < self.txs@.len() && self.txs@[j].hash() == h);
            }
        }
        None
    }

    /// Pending-transaction event. A hash already tracked is ignored; a
    /// transaction that already has a receipt was mined and is stale, never
    /// tracked; one whose declared fee cannot cover the current base fee is
    /// excluded. Anything else is admitted, first seen at the current head
    /// block, with nothing extracted or derived yet.
    pub fn on_pending_tx(&mut self, pending_tx: NewPendingTx, has_receipt: bool) -> (added: bool)
        requires
            old(self).wf(),
        ensures
            final(self).wf(),
            final(self).block == old(self).block,
            added == (!old(self).tracks(pending_tx.tx.hash) && !has_receipt
                && spec_gas_price_admissible(pending_tx.tx.fee, old(self).block.base_fee)),
            !added ==> *final(self) == *old(self),
            forall|h: Word256|
                h != pending_tx.tx.hash ==> (final(self).tracks(h) <==> old(self).tracks(h)),
            forall|h: Word256|
                h != pending_tx.tx.hash && old(self).tracks(h) ==> final(self).entry_of(h) == old(
                    self,
                ).entry_of(h),
            added ==> final(self).tracks(pending_tx.tx.hash),
            added ==> final(self).entry_of(pending_tx.tx.hash).info.pending_tx.tx
                == pending_tx.tx,
            added ==> final(self).entry_of(pending_tx.tx.hash).info.pending_tx.added_block
                == Some(old(self).block.block_number),
            added ==> final(self).entry_of(pending_tx.tx.hash).info.touched_pairs@
                == Seq::<SwapInfo>::empty(),
            added ==> final(self).entry_of(pending_tx.tx.hash).candidates@
                == Seq::<Sandwich>::empty(),
    {
        let h = pending_tx.tx.hash;
        if let Some(_) = self.index_of_tracked(h) {
            return false;
        }
        if has_receipt {
            return false;
        }
        if !gas_price_admissible(pending_tx.tx.fee, self.block.base_fee) {
            return false;
        }
        let ghost s0 = self.txs@;
        let entry = TrackedTx {
            info: PendingTxInfo {
                pending_tx: NewPendingTx {
                    added_block: Some(self.block.block_number),
                    tx: pending_tx.tx,
                },
                touched_pairs: Vec::new(),
            },
            candidates: Vec::new(),
        };
        let ghost ge = entry;
        self.txs.push(entry);
        proof {
            assert(ge.hash() == h);
            lemma_push_props(s0, ge);
            assert(self.txs@ == s0.push(ge));
            assert forall|i: int| 0 <= i < self.txs@.len() implies self.block.block_number < (
            #[trigger] self.txs@[i]).seen_block() + MAX_TRACKED_AGE by {
                if i < s0.len() {
                    assert(self.txs@[i] == s0[i]);
                }
            }
        }
        true
    }

    /// Applies an extraction result back to the table. A completion whose
    /// transaction meanwhile confirmed or expired is discarded.
    pub fn apply_extraction(&mut self, tx_hash: Word256, touched_pairs: Vec<SwapInfo>) -> (applied:
        bool)
        requires
            old(self).wf(),
        ensures
            final(self).wf(),
            final(self).block == old(self).block,
            applied == old(self).tracks(tx_hash),
            !applied ==> *final(self) == *old(self),
            forall|h: Word256| final(self).tracks(h) <==> old(self).tracks(h),
            forall|h: Word256|
                h != tx_hash && old(self).tracks(h) ==> final(self).entry_of(h) == old(
                    self,
                ).entry_of(h),
            applied ==> final(self).entry_of(tx_hash).info.touched_pairs == touched_pairs,
            applied ==> final(self).entry_of(tx_hash).info.pending_tx == old(self).entry_of(
                tx_hash,
            ).info.pending_tx,
            applied ==> final(self).entry_of(tx_hash).candidates == old(self).entry_of(
                tx_hash,
            ).candidates,
    {
        let ghost s0 = self.txs@;
        let i = match self.index_of_tracked(tx_hash) {
            Some(i) => i,
            None => {
                return false;
            },
        };
        proof {
            lemma_seq_entry_at(s0, i as int);
        }
        let mut entry = self.txs.remove(i);
        entry.info.touched_pairs = touched_pairs;
        let ghost ge = entry;
        self.txs.insert(i, entry);
        proof {
            assert(self.txs@ =~= s0.update(i as int, ge));
            lemma_update_props(s0, i as int, ge);
            assert forall|j: int| 0 <= j < self.txs@.len() implies self.block.block_number < (
            #[trigger] self.txs@[j]).seen_block() + MAX_TRACKED_AGE by {
                if j != i {
                    assert(self.txs@[j] == s0[j]);
                } else {
                    assert(self.txs@[j].seen_block() == s0[j].seen_block());
                }
            }
        }
        true
    }

    /// Applies the candidates built for a tracked transaction back to the
    /// table. A completion whose transaction meanwhile confirmed or expired
    /// is discarded.
    pub fn apply_candidates(&mut self, tx_hash: Word256, candidates: Vec<Sandwich>) -> (applied:
        bool)
        requires
            old(self).wf(),
        ensures
            final(self).wf(),
            final(self).block == old(self).block,
            applied == old(self).tracks(tx_hash),
            !applied ==> *final(self) == *old(self),
            forall|h: Word256| final(self).tracks(h) <==> old(self).tracks(h),
            forall|h: Word256|
                h != tx_hash && old(self).tracks(h) ==> final(self).entry_of(h) == old(
                    self,
                ).entry_of(h),
            applied ==> final(self).entry_of(tx_hash).candidates == candidates,
            applied ==> final(self).entry_of(tx_hash).info == old(self).entry_of(tx_hash).info,
    {
        let ghost s0 = self.txs@;
        let i = match self.index_of_tracked(tx_hash) {
            Some(i) => i,
            None => {
                return false;
            },
        };
        proof {
            lemma_seq_entry_at(s0, i as int);
        }
        let mut entry = self.txs.remove(i);
        entry.candidates = candidates;
        let ghost ge = entry;
        self.txs.insert(i, entry);
        proof {
            assert(self.txs@ =~= s0.update(i as int, ge));
            lemma_update_props(s0, i as int, ge);
            assert forall|j: int| 0 <= j < self.txs@.len() implies self.block.block_number < (
            #[trigger] self.txs@[j]).seen_block() + MAX_TRACKED_AGE by {
                if j != i {
                    assert(self.txs@[j] == s0[j]);
                } else {
                    assert(self.txs@[j].seen_block() == s0[j].seen_block());
                }
            }
        }
        true
    }
}

// A deque of an outside crate carries the recent-history window; Verus sees
// it only through the two names and the wrappers below.
#[verifier::external_type_specification]
#[verifier::external_body]
#[verifier::reject_recursive_types(T)]
pub struct ExBoundedVecDeque<T>(bounded_vec_deque::BoundedVecDeque<T>);

/// What the deque holds, oldest first, each element by its characters.
pub uninterp spec fn window_items(q: bounded_vec_deque::BoundedVecDeque<String>) -> Seq<Seq<char>>;

/// The length limit the deque was created with.
pub uninterp spec fn window_bound(q: bounded_vec_deque::BoundedVecDeque<String>) -> nat;

/// Relies on BoundedVecDeque::new: an empty deque with the given length
/// limit.
#[verifier::external_body]
fn window_new(max_len: usize) -> (q: bounded_vec_deque::BoundedVecDeque<String>)
    ensures
        window_items(q) == Seq::<Seq<char>>::empty(),
        window_bound(q) == max_len,
{
    bounded_vec_deque::BoundedVecDeque::new(max_len)
}

/// Relies on BoundedVecDeque::push_back: appends at the back; at the length
/// limit, the oldest element leaves at the front first.
#[verifier::external_body]
fn window_push(q: &mut bounded_vec_deque::BoundedVecDeque<String>, id: String)
    requires
        window_bound(*old(q)) > 0,
    ensures
        window_bound(*final(q)) == window_bound(*old(q)),
        window_items(*old(q)).len() < window_bound(*old(q)) ==> window_items(*final(q))
            == window_items(*old(q)).push(id@),
        window_items(*old(q)).len() >= window_bound(*old(q)) ==> window_items(*final(q))
            == window_items(*old(q)).drop_first().push(id@),
{
    let _ = q.push_back(id);
}

/// Relies on VecDeque::contains, reached through BoundedVecDeque's Deref:
/// whether some element equals the given string.
#[verifier::external_body]
fn window_contains(q: &bounded_vec_deque::BoundedVecDeque<String>, id: &String) -> (r: bool)
    ensures
        r == window_items(*q).contains(id@),
{
    q.contains(id)
}

/// How many bundle identities the recent-history window retains.
pub const BUNDLE_HISTORY_CAPACITY: usize = 30;

/// The bounded window of recently submitted bundle identities: a submission
/// gate that drops any bundle whose identity was already attempted, with
/// strict first-in-first-out eviction once full.
pub struct BundleHistory {
    deque: bounded_vec_deque::BoundedVecDeque<String>,
}

impl BundleHistory {
    /// The identities currently held, oldest first.
    pub closed spec fn items(self) -> Seq<Seq<char>> {
        window_items(self.deque)
    }

    /// The window was built with its fixed capacity and never exceeds it.
    pub closed spec fn wf(self) -> bool {
        window_bound(self.deque) == BUNDLE_HISTORY_CAPACITY && window_items(self.deque).len()
            <= BUNDLE_HISTORY_CAPACITY
    }

    /// An empty window at the fixed capacity.
    pub fn new() -> (r: BundleHistory)
        ensures
            r.wf(),
            r.items() == Seq::<Seq<char>>::empty(),
    {
        BundleHistory { deque: window_new(BUNDLE_HISTORY_CAPACITY) }
    }

    /// Whether this identity was already attempted recently.
    pub fn contains_id(&self, bundle_id: &String) -> (r: bool)
        ensures
            r == self.items().contains(bundle_id@),
    {
        window_contains(&self.deque, bundle_id)
    }

    /// The submission gate: an identity still in the window is dropped
    /// silently and nothing changes; a new one is recorded -- evicting the
    /// oldest entry once the window is full -- and may be submitted.
    pub fn check_and_record(&mut self, bundle_id: &String) -> (submit: bool)
        requires
            old(self).wf(),
        ensures
            final(self).wf(),
            submit == !old(self).items().contains(bundle_id@),
            !submit ==> final(self).items() == old(self).items(),
            submit ==> final(self).items().contains(bundle_id@),
            submit && old(self).items().len() < BUNDLE_HISTORY_CAPACITY ==> final(self).items()
                == old(self).items().push(bundle_id@),
            submit && old(self).items().len() >= BUNDLE_HISTORY_CAPACITY ==> final(self).items()
                == old(self).items().drop_first().push(bundle_id@),
    {
        if window_contains(&self.deque, bundle_id) {
            return false;
        }
        let owned: String = bundle_id.clone();
        let ghost items0 = window_items(self.deque);
        window_push(&mut self.deque, owned);
        proof {
            if items0.len() < BUNDLE_HISTORY_CAPACITY {
                assert(window_items(self.deque) == items0.push(bundle_id@));
                assert(window_items(self.deque)[items0.len() as int] == bundle_id@);
            } else {
                assert(window_items(self.deque) == items0.drop_first().push(bundle_id@));
                assert(window_items(self.deque)[window_items(self.deque).len() - 1]
                    == bundle_id@);
            }
        }
        true
    }
}

} // verus!
