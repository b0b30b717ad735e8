//! The node: one struct owning the asset ledger, the channel set, the
//! payment history and the in-flight transfers, with the operations of the
//! API surface. Every mutating operation either fully applies its state
//! change or returns an error with no change; the well-formedness
//! invariant carries the conservation law — for every tracked asset, the
//! in-view buckets plus the units outside this node's view equal the
//! issued supply.

use vstd::prelude::*;
use crate::channels::{
    cap_contrib, cap_f, chan_closing, chan_wf, close_depth, confirmations, inbound_contrib,
    inbound_f, outbound_contrib, outbound_f, Channel, ChannelState, CHANNEL_FEE_MSAT,
    COOP_CLOSE_DEPTH, FORCE_CLOSE_DEPTH, FUNDING_DEPTH, MAX_CHANNEL_SAT, MIN_CHANNEL_SAT,
};
use crate::codec::{
    decode_ln_invoice, encode_ln_invoice, encode_ln_spec, encode_rgb_invoice, encode_rgb_spec,
    lemma_ln_encoding_injective, ln_data_wf, ln_expired, LnInvoiceData, RgbInvoiceData,
};
use crate::errors::NodeError;
use crate::ledger::{
    asset_like, copy_bytes, sat_contrib, sat_f, spendable_contrib, spendable_f,
    uncolored_sat_contrib, uncolored_sat_f, Alloc, Asset, Utxo,
};
use crate::miner::MAX_HEIGHT;
use crate::payments::{
    payments_monotonic, status_step_ok, terminal, HtlcStatus, Payment, PaymentDirection,
};
use crate::sums::{
    lemma_sum_by_element_le, lemma_sum_by_nonneg, lemma_sum_by_pointwise_eq,
    lemma_sum_by_pointwise_le, lemma_sum_by_prefix_le, lemma_sum_by_push, lemma_sum_by_remove,
    lemma_sum_by_take_all, lemma_sum_by_take_succ, lemma_sum_by_update, lemma_sum_by_zero, sum_by,
};
use crate::transfers::{
    transfer_like, transfer_terminal, transit_contrib, transit_f, RefreshEvent, Transfer,
    TransferStatus, TransferUpdate,
};

verus! {

/// Upper bound on satoshis the model lets one node's wallet and channels
/// hold; keeps every satoshi sum inside `u64`.
pub const MAX_BTC_SATS: u64 = 2_100_000_000_000_000;

/// Satoshi size of each output carved by `create_utxos`.
pub const UTXO_SAT: u64 = 32_000;

/// Seed of the password-key fold.
pub const KEY_SEED: u64 = 0x6f1c_93ad_0b57_e284;

/// One step of the password-key fold.
pub open spec fn key_mix(acc: u64, b: u8) -> u64 {
    ((acc << 7) | (acc >> 57)) ^ (b as u64)
}

/// The unlock/encryption key derived from a password.
pub open spec fn key_of(s: Seq<u8>) -> u64
    decreases s.len(),
{
    if s.len() == 0 {
        KEY_SEED
    } else {
        key_mix(key_of(s.drop_last()), s.last())
    }
}

/// Derives the key of a password.
pub fn derive_key(password: &Vec<u8>) -> (r: u64)
    ensures
        r == key_of(password@),
{
    let mut acc: u64 = KEY_SEED;
    let mut i: usize = 0;
    while i < password.len()
        invariant
            i <= password@.len(),
            acc == key_of(password@.take(i as int)),
        decreases password@.len() - i,
    {
        acc = ((acc << 7u64) | (acc >> 57u64)) ^ (password[i] as u64);
        proof {
            assert(password@.take(i + 1).drop_last() =~= password@.take(i as int));
        }
        i = i + 1;
    }
    proof {
        assert(password@.take(password@.len() as int) =~= password@);
    }
    acc
}

/// The three balances reported for one asset.
#[derive(Clone, Copy, Debug, PartialEq, Eq, Structural)]
pub struct AssetBalanceResponse {
    /// On-chain allocations not locked in a channel or pending transfer.
    pub spendable: u64,
    /// Units on our side of channels carrying the asset.
    pub offchain_outbound: u64,
    /// Units on the counterparty side of channels carrying the asset.
    pub offchain_inbound: u64,
}

/// The node.
#[derive(Debug)]
pub struct Node {
    /// This node's identity (its public key handle).
    pub node_id: u64,
    /// Key derived from the wallet password at `init`.
    pub key: u64,
    /// Whether mutating operations are admitted.
    pub unlocked: bool,
    /// Last chain height observed through `sync`.
    pub height: u64,
    /// Issued or learned assets.
    pub assets: Vec<Asset>,
    /// On-chain unspent outputs.
    pub utxos: Vec<Utxo>,
    /// Active channels, ordered by creation.
    pub channels: Vec<Channel>,
    /// Payment history; never pruned.
    pub payments: Vec<Payment>,
    /// Asset transfers, in-flight and finished.
    pub transfers: Vec<Transfer>,
    /// Connected peers.
    pub peers: Vec<u64>,
    /// Next outpoint handle.
    pub next_outpoint: u64,
    /// Next channel identifier.
    pub next_channel_id: u64,
    /// Bound on every recorded payment hash.
    pub next_payment_hash: u64,
    /// Next blinded-commitment handle.
    pub next_blinded: u64,
    /// Next funding-transaction handle.
    pub next_txid: u64,
}

impl Node {
    /// Spendable units of asset `a`: on-chain allocations of `a`.
    pub open spec fn spendable_of(self, a: u64) -> int {
        sum_by(self.utxos@, spendable_f(a))
    }

    /// Units of `a` on our side of channels.
    pub open spec fn offchain_outbound_of(self, a: u64) -> int {
        sum_by(self.channels@, outbound_f(a))
    }

    /// Units of `a` on the counterparty side of channels.
    pub open spec fn offchain_inbound_of(self, a: u64) -> int {
        sum_by(self.channels@, inbound_f(a))
    }

    /// Units of `a` held by outbound transfers not yet terminal.
    pub open spec fn in_transit_of(self, a: u64) -> int {
        sum_by(self.transfers@, transit_f(a))
    }

    /// Every in-view bucket of asset `a` together.
    pub open spec fn in_view_of(self, a: u64) -> int {
        self.spendable_of(a) + self.offchain_outbound_of(a) + self.offchain_inbound_of(a)
            + self.in_transit_of(a)
    }

    /// Total satoshis on unspent outputs.
    pub open spec fn sat_total(self) -> int {
        sum_by(self.utxos@, sat_f())
    }

    /// Satoshis on uncolored outputs, available to ordinary selection.
    pub open spec fn btc_spendable_of(self) -> int {
        sum_by(self.utxos@, uncolored_sat_f())
    }

    /// Satoshis committed to channels.
    pub open spec fn cap_total(self) -> int {
        sum_by(self.channels@, cap_f())
    }

    /// Is an asset with identifier `a` in the ledger?
    pub open spec fn asset_registered(self, a: u64) -> bool {
        exists|i: int| 0 <= i < self.assets@.len() && self.assets@[i].asset_id == a
    }

    /// The ledger record index of asset `a`.
    pub open spec fn asset_idx_of(self, a: u64) -> int {
        choose|i: int| 0 <= i < self.assets@.len() && self.assets@[i].asset_id == a
    }

    /// Issued supply of asset `a`.
    pub open spec fn issued_supply_of(self, a: u64) -> int {
        self.assets@[self.asset_idx_of(a)].issued_supply as int
    }

    /// Units of asset `a` outside this node's view.
    pub open spec fn off_view_of(self, a: u64) -> int {
        self.assets@[self.asset_idx_of(a)].off_view as int
    }

    /// The conservation account of the asset record at index `i`.
    pub open spec fn account_ok(self, i: int) -> bool {
        self.in_view_of(self.assets@[i].asset_id) + self.assets@[i].off_view
            == self.assets@[i].issued_supply
    }

    /// Well-formedness: channel records are well formed and their
    /// identifiers increase in creation order; asset identifiers are
    /// distinct and every referenced asset is tracked; payment hashes are
    /// distinct and bounded; the conservation account balances for every
    /// asset; and every satoshi stays inside the modeled range.
    pub open spec fn wf(self) -> bool {
        &&& self.height <= MAX_HEIGHT
        &&& forall|i: int| 0 <= i < self.channels@.len() ==> chan_wf(#[trigger] self.channels@[i])
        &&& forall|i: int, j: int|
            0 <= i < j < self.channels@.len() ==> (#[trigger] self.channels@[i]).channel_id < (
            #[trigger] self.channels@[j]).channel_id
        &&& forall|i: int|
            0 <= i < self.channels@.len() ==> (#[trigger] self.channels@[i]).channel_id
                < self.next_channel_id
        &&& forall|i: int, j: int|
            0 <= i < self.assets@.len() && 0 <= j < self.assets@.len() && i != j ==> (
            #[trigger] self.assets@[i]).asset_id != (#[trigger] self.assets@[j]).asset_id
        &&& forall|i: int| 0 <= i < self.assets@.len() ==> #[trigger] self.account_ok(i)
        &&& forall|i: int, j: int|
            0 <= i < j < self.payments@.len() ==> (#[trigger] self.payments@[i]).payment_hash != (
            #[trigger] self.payments@[j]).payment_hash
        &&& forall|i: int|
            0 <= i < self.payments@.len() ==> (#[trigger] self.payments@[i]).payment_hash
                < self.next_payment_hash
        &&& forall|i: int|
            0 <= i < self.utxos@.len() ==> ((#[trigger] self.utxos@[i]).alloc matches Some(al)
                ==> self.asset_registered(al.asset_id))
        &&& forall|i: int|
            0 <= i < self.channels@.len() ==> ((#[trigger] self.channels@[i]).asset_id matches Some(
            a) ==> self.asset_registered(a))
        &&& forall|i: int|
            0 <= i < self.transfers@.len() ==> {
                &&& ((#[trigger] self.transfers@[i]).outbound ==> self.transfers@[i].asset_id
                    is Some)
                &&& (self.transfers@[i].asset_id matches Some(a) ==> self.asset_registered(a))
                &&& self.transfers@[i].anchor_height <= MAX_HEIGHT + 1
            }
        &&& forall|i: int, j: int|
            0 <= i < j < self.peers@.len() ==> #[trigger] self.peers@[i] != #[trigger] self.peers@[j]
        &&& allocs_positive(self.utxos@)
        &&& self.sat_total() + self.cap_total() <= MAX_BTC_SATS
    }

    /// Scalar fields and the lock state of `b` equal those of `a`.
    pub open spec fn same_scalars(a: Node, b: Node) -> bool {
        &&& a.node_id == b.node_id
        &&& a.key == b.key
        &&& a.height == b.height
        &&& a.next_outpoint == b.next_outpoint
        &&& a.next_channel_id == b.next_channel_id
        &&& a.next_payment_hash == b.next_payment_hash
        &&& a.next_blinded == b.next_blinded
        &&& a.next_txid == b.next_txid
    }

    /// The whole persistent state of `b` equals that of `a` (the lock
    /// flag aside).
    pub open spec fn same_state(a: Node, b: Node) -> bool {
        &&& Node::same_scalars(a, b)
        &&& assets_like(a.assets@, b.assets@)
        &&& a.utxos@ == b.utxos@
        &&& a.channels@ == b.channels@
        &&& a.payments@ == b.payments@
        &&& transfers_like(a.transfers@, b.transfers@)
        &&& a.peers@ == b.peers@
    }

    /// Nothing changed at all, lock flag included.
    pub open spec fn unchanged(a: Node, b: Node) -> bool {
        Node::same_state(a, b) && a.unlocked == b.unlocked
    }

    /// The identity, wallet key, lock flag, observed height and
    /// connected peers of `b` are those of `a`: the control state no
    /// ledger operation may move.
    pub open spec fn same_control(a: Node, b: Node) -> bool {
        &&& b.node_id == a.node_id
        &&& b.key == a.key
        &&& b.unlocked == a.unlocked
        &&& b.height == a.height
        &&& b.peers@ == a.peers@
    }

    /// Every identifier counter of `b` equals that of `a`.
    pub open spec fn same_counters(a: Node, b: Node) -> bool {
        &&& b.next_outpoint == a.next_outpoint
        &&& b.next_channel_id == a.next_channel_id
        &&& b.next_payment_hash == a.next_payment_hash
        &&& b.next_blinded == a.next_blinded
        &&& b.next_txid == a.next_txid
    }
}

/// Field-wise sameness of two asset lists.
pub open spec fn assets_like(a: Seq<Asset>, b: Seq<Asset>) -> bool {
    a.len() == b.len() && forall|i: int| 0 <= i < a.len() ==> asset_like(a[i], #[trigger] b[i])
}

/// Field-wise sameness of two transfer lists.
pub open spec fn transfers_like(a: Seq<Transfer>, b: Seq<Transfer>) -> bool {
    a.len() == b.len() && forall|i: int| 0 <= i < a.len() ==> transfer_like(a[i], #[trigger] b[i])
}

impl Node {
    /// Initializes a fresh, locked node whose wallet key is derived from
    /// `password`. The returned word is the seed material handed back to
    /// the caller once, at initialization.
    pub fn init(node_id: u64, password: &Vec<u8>) -> (r: (Node, u64))
        ensures
            r.0.wf(),
            !r.0.unlocked,
            r.0.node_id == node_id,
            r.0.key == key_of(password@),
            r.0.assets@.len() == 0,
            r.0.utxos@.len() == 0,
            r.0.channels@.len() == 0,
            r.0.payments@.len() == 0,
            r.0.transfers@.len() == 0,
            r.0.peers@.len() == 0,
            r.0.height == 0,
            r.1 == key_of(password@) ^ node_id,
    {
        let key = derive_key(password);
        let node = Node {
            node_id,
            key,
            unlocked: false,
            height: 0,
            assets: Vec::new(),
            utxos: Vec::new(),
            channels: Vec::new(),
            payments: Vec::new(),
            transfers: Vec::new(),
            peers: Vec::new(),
            next_outpoint: 0,
            next_channel_id: 0,
            next_payment_hash: 0,
            next_blinded: 0,
            next_txid: 0,
        };
        (node, key ^ node_id)
    }

    /// Unlocks the node when the password matches the one given at
    /// initialization; a wrong password is refused and changes nothing.
    pub fn unlock(&mut self, password: &Vec<u8>) -> (r: Result<(), NodeError>)
        ensures
            Node::same_state(*old(self), *final(self)),
            r is Ok <==> key_of(password@) == old(self).key,
            r is Ok ==> final(self).unlocked,
            r is Err ==> final(self).unlocked == old(self).unlocked && r == Err::<(), NodeError>(
                NodeError::WrongPassword,
            ),
            old(self).wf() ==> final(self).wf(),
    {
        let key = derive_key(password);
        if key != self.key {
            return Err(NodeError::WrongPassword);
        }
        self.unlocked = true;
        proof {
            if old(self).wf() {
                assert forall|i: int| 0 <= i < self.assets@.len() implies #[trigger] self.account_ok(
                    i,
                ) by {
                    assert(old(self).account_ok(i));
                }
            }
        }
        Ok(())
    }

    /// Locks the node: mutating operations are refused until `unlock`.
    pub fn lock(&mut self)
        ensures
            Node::same_state(*old(self), *final(self)),
            !final(self).unlocked,
            old(self).wf() ==> final(self).wf(),
    {
        self.unlocked = false;
        proof {
            if old(self).wf() {
                assert(self.assets@ == old(self).assets@);
                assert(self.utxos@ == old(self).utxos@);
                assert forall|i: int| 0 <= i < self.assets@.len() implies #[trigger] self.account_ok(
                    i,
                ) by {
                    assert(old(self).account_ok(i));
                }
                assert(self.wf());
            }
        }
    }

    /// Finds the ledger index of asset `a`.
    pub fn find_asset(&self, a: u64) -> (r: Option<usize>)
        ensures
            r is Some <==> self.asset_registered(a),
            r matches Some(i) ==> i < self.assets@.len() && self.assets@[i as int].asset_id == a,
    {
        let mut i: usize = 0;
        while i < self.assets.len()
            invariant
                i <= self.assets@.len(),
                forall|j: int| 0 <= j < i ==> (#[trigger] self.assets@[j]).asset_id != a,
            decreases self.assets@.len() - i,
        {
            if self.assets[i].asset_id == a {
                return Some(i);
            }
            i = i + 1;
        }
        None
    }
}

// ---------------------------------------------------------------------------
// Measured sums, executable
// ---------------------------------------------------------------------------

/// The count measure of uncolored outputs.
pub open spec fn uncolored_count_f() -> spec_fn(Utxo) -> int {
    |u: Utxo| if u.alloc is None { 1int } else { 0int }
}

/// The plain-value measure on amounts.
pub open spec fn amt_f() -> spec_fn(u64) -> int {
    |x: u64| x as int
}

/// Sums the spendable allocations of asset `a` over the outputs.
fn sum_spendable(v: &Vec<Utxo>, a: u64) -> (r: u64)
    requires
        sum_by(v@, spendable_f(a)) <= u64::MAX,
    ensures
        r as int == sum_by(v@, spendable_f(a)),
{
    proof {
        assert(forall|j: int| 0 <= j < v@.len() ==> spendable_f(a)(#[trigger] v@[j]) >= 0);
    }
    let mut acc: u64 = 0;
    let mut i: usize = 0;
    while i < v.len()
        invariant
            i <= v@.len(),
            acc as int == sum_by(v@.take(i as int), spendable_f(a)),
            sum_by(v@, spendable_f(a)) <= u64::MAX,
            forall|j: int| 0 <= j < v@.len() ==> spendable_f(a)(#[trigger] v@[j]) >= 0,
        decreases v@.len() - i,
    {
        proof {
            lemma_sum_by_take_succ(v@, spendable_f(a), i as int);
            lemma_sum_by_prefix_le(v@, spendable_f(a), i as int + 1);
        }
        let add: u64 = match v[i].alloc {
            Some(al) => if al.asset_id == a {
                al.amount
            } else {
                0
            },
            None => 0,
        };
        acc = acc + add;
        i = i + 1;
    }
    proof {
        lemma_sum_by_take_all(v@, spendable_f(a));
    }
    acc
}

/// Sums our side of channels carrying asset `a`.
fn sum_outbound(v: &Vec<Channel>, a: u64) -> (r: u64)
    requires
        sum_by(v@, outbound_f(a)) <= u64::MAX,
    ensures
        r as int == sum_by(v@, outbound_f(a)),
{
    proof {
        assert(forall|j: int| 0 <= j < v@.len() ==> outbound_f(a)(#[trigger] v@[j]) >= 0);
    }
    let mut acc: u64 = 0;
    let mut i: usize = 0;
    while i < v.len()
        invariant
            i <= v@.len(),
            acc as int == sum_by(v@.take(i as int), outbound_f(a)),
            sum_by(v@, outbound_f(a)) <= u64::MAX,
            forall|j: int| 0 <= j < v@.len() ==> outbound_f(a)(#[trigger] v@[j]) >= 0,
        decreases v@.len() - i,
    {
        proof {
            lemma_sum_by_take_succ(v@, outbound_f(a), i as int);
            lemma_sum_by_prefix_le(v@, outbound_f(a), i as int + 1);
        }
        let add: u64 = match v[i].asset_id {
            Some(id) => if id == a {
                v[i].asset_local
            } else {
                0
            },
            None => 0,
        };
        acc = acc + add;
        i = i + 1;
    }
    proof {
        lemma_sum_by_take_all(v@, outbound_f(a));
    }
    acc
}

/// Sums the counterparty side of channels carrying asset `a`.
fn sum_inbound(v: &Vec<Channel>, a: u64) -> (r: u64)
    requires
        sum_by(v@, inbound_f(a)) <= u64::MAX,
    ensures
        r as int == sum_by(v@, inbound_f(a)),
{
    proof {
        assert(forall|j: int| 0 <= j < v@.len() ==> inbound_f(a)(#[trigger] v@[j]) >= 0);
    }
    let mut acc: u64 = 0;
    let mut i: usize = 0;
    while i < v.len()
        invariant
            i <= v@.len(),
            acc as int == sum_by(v@.take(i as int), inbound_f(a)),
            sum_by(v@, inbound_f(a)) <= u64::MAX,
            forall|j: int| 0 <= j < v@.len() ==> inbound_f(a)(#[trigger] v@[j]) >= 0,
        decreases v@.len() - i,
    {
        proof {
            lemma_sum_by_take_succ(v@, inbound_f(a), i as int);
            lemma_sum_by_prefix_le(v@, inbound_f(a), i as int + 1);
        }
        let add: u64 = match v[i].asset_id {
            Some(id) => if id == a {
                v[i].asset_remote
            } else {
                0
            },
            None => 0,
        };
        acc = acc + add;
        i = i + 1;
    }
    proof {
        lemma_sum_by_take_all(v@, inbound_f(a));
    }
    acc
}

/// Sums the in-transit units of asset `a` over the transfers.
fn sum_transit(v: &Vec<Transfer>, a: u64) -> (r: u64)
    requires
        sum_by(v@, transit_f(a)) <= u64::MAX,
    ensures
        r as int == sum_by(v@, transit_f(a)),
{
    proof {
        assert(forall|j: int| 0 <= j < v@.len() ==> transit_f(a)(#[trigger] v@[j]) >= 0);
    }
    let mut acc: u64 = 0;
    let mut i: usize = 0;
    while i < v.len()
        invariant
            i <= v@.len(),
            acc as int == sum_by(v@.take(i as int), transit_f(a)),
            sum_by(v@, transit_f(a)) <= u64::MAX,
            forall|j: int| 0 <= j < v@.len() ==> transit_f(a)(#[trigger] v@[j]) >= 0,
        decreases v@.len() - i,
    {
        proof {
            lemma_sum_by_take_succ(v@, transit_f(a), i as int);
            lemma_sum_by_prefix_le(v@, transit_f(a), i as int + 1);
        }
        let keep: bool = v[i].outbound && match v[i].status {
            TransferStatus::Settled => false,
            TransferStatus::Failed => false,
            _ => true,
        };
        let add: u64 = if keep {
            match v[i].asset_id {
                Some(id) => if id == a {
                    v[i].amount
                } else {
                    0
                },
                None => 0,
            }
        } else {
            0
        };
        acc = acc + add;
        i = i + 1;
    }
    proof {
        lemma_sum_by_take_all(v@, transit_f(a));
    }
    acc
}

/// Sums all satoshis over the outputs.
fn sum_sats(v: &Vec<Utxo>) -> (r: u64)
    requires
        sum_by(v@, sat_f()) <= u64::MAX,
    ensures
        r as int == sum_by(v@, sat_f()),
{
    proof {
        assert(forall|j: int| 0 <= j < v@.len() ==> sat_f()(#[trigger] v@[j]) >= 0);
    }
    let mut acc: u64 = 0;
    let mut i: usize = 0;
    while i < v.len()
        invariant
            i <= v@.len(),
            acc as int == sum_by(v@.take(i as int), sat_f()),
            sum_by(v@, sat_f()) <= u64::MAX,
            forall|j: int| 0 <= j < v@.len() ==> sat_f()(#[trigger] v@[j]) >= 0,
        decreases v@.len() - i,
    {
        proof {
            lemma_sum_by_take_succ(v@, sat_f(), i as int);
            lemma_sum_by_prefix_le(v@, sat_f(), i as int + 1);
        }
        acc = acc + v[i].amount_sat;
        i = i + 1;
    }
    proof {
        lemma_sum_by_take_all(v@, sat_f());
    }
    acc
}

/// Sums the satoshis on uncolored outputs.
fn sum_uncolored(v: &Vec<Utxo>) -> (r: u64)
    requires
        sum_by(v@, uncolored_sat_f()) <= u64::MAX,
    ensures
        r as int == sum_by(v@, uncolored_sat_f()),
{
    proof {
        assert(forall|j: int| 0 <= j < v@.len() ==> uncolored_sat_f()(#[trigger] v@[j]) >= 0);
    }
    let mut acc: u64 = 0;
    let mut i: usize = 0;
    while i < v.len()
        invariant
            i <= v@.len(),
            acc as int == sum_by(v@.take(i as int), uncolored_sat_f()),
            sum_by(v@, uncolored_sat_f()) <= u64::MAX,
            forall|j: int| 0 <= j < v@.len() ==> uncolored_sat_f()(#[trigger] v@[j]) >= 0,
        decreases v@.len() - i,
    {
        proof {
            lemma_sum_by_take_succ(v@, uncolored_sat_f(), i as int);
            lemma_sum_by_prefix_le(v@, uncolored_sat_f(), i as int + 1);
        }
        let add: u64 = match v[i].alloc {
            Some(_) => 0,
            None => v[i].amount_sat,
        };
        acc = acc + add;
        i = i + 1;
    }
    proof {
        lemma_sum_by_take_all(v@, uncolored_sat_f());
    }
    acc
}

/// Sums the committed capacities over the channels.
fn sum_caps(v: &Vec<Channel>) -> (r: u64)
    requires
        sum_by(v@, cap_f()) <= u64::MAX,
    ensures
        r as int == sum_by(v@, cap_f()),
{
    proof {
        assert(forall|j: int| 0 <= j < v@.len() ==> cap_f()(#[trigger] v@[j]) >= 0);
    }
    let mut acc: u64 = 0;
    let mut i: usize = 0;
    while i < v.len()
        invariant
            i <= v@.len(),
            acc as int == sum_by(v@.take(i as int), cap_f()),
            sum_by(v@, cap_f()) <= u64::MAX,
            forall|j: int| 0 <= j < v@.len() ==> cap_f()(#[trigger] v@[j]) >= 0,
        decreases v@.len() - i,
    {
        proof {
            lemma_sum_by_take_succ(v@, cap_f(), i as int);
            lemma_sum_by_prefix_le(v@, cap_f(), i as int + 1);
        }
        acc = acc + v[i].capacity_sat;
        i = i + 1;
    }
    proof {
        lemma_sum_by_take_all(v@, cap_f());
    }
    acc
}

// ---------------------------------------------------------------------------
// Bounds drawn from the invariant
// ---------------------------------------------------------------------------

/// For a tracked asset of a well-formed node, every bucket is
/// non-negative and bounded by the issued supply.
pub proof fn lemma_buckets_bounded(n: Node, a: u64)
    requires
        n.wf(),
        n.asset_registered(a),
    ensures
        0 <= n.spendable_of(a) <= n.issued_supply_of(a),
        0 <= n.offchain_outbound_of(a) <= n.issued_supply_of(a),
        0 <= n.offchain_inbound_of(a) <= n.issued_supply_of(a),
        0 <= n.in_transit_of(a) <= n.issued_supply_of(a),
        n.in_view_of(a) + n.off_view_of(a) == n.issued_supply_of(a),
        n.issued_supply_of(a) <= u64::MAX,
{
    let i = n.asset_idx_of(a);
    assert(0 <= i < n.assets@.len() && n.assets@[i].asset_id == a);
    assert(n.account_ok(i));
    assert(forall|j: int| 0 <= j < n.utxos@.len() ==> spendable_f(a)(#[trigger] n.utxos@[j]) >= 0);
    lemma_sum_by_nonneg(n.utxos@, spendable_f(a));
    assert(forall|j: int|
        0 <= j < n.channels@.len() ==> outbound_f(a)(#[trigger] n.channels@[j]) >= 0);
    lemma_sum_by_nonneg(n.channels@, outbound_f(a));
    assert(forall|j: int|
        0 <= j < n.channels@.len() ==> inbound_f(a)(#[trigger] n.channels@[j]) >= 0);
    lemma_sum_by_nonneg(n.channels@, inbound_f(a));
    assert(forall|j: int|
        0 <= j < n.transfers@.len() ==> transit_f(a)(#[trigger] n.transfers@[j]) >= 0);
    lemma_sum_by_nonneg(n.transfers@, transit_f(a));
}

/// For a well-formed node, the satoshi sums are non-negative and inside
/// the modeled range.
pub proof fn lemma_sats_bounded(n: Node)
    requires
        n.wf(),
    ensures
        0 <= n.sat_total() <= MAX_BTC_SATS,
        0 <= n.cap_total() <= MAX_BTC_SATS,
        0 <= n.btc_spendable_of() <= n.sat_total(),
{
    assert(forall|j: int| 0 <= j < n.utxos@.len() ==> sat_f()(#[trigger] n.utxos@[j]) >= 0);
    lemma_sum_by_nonneg(n.utxos@, sat_f());
    assert(forall|j: int| 0 <= j < n.channels@.len() ==> cap_f()(#[trigger] n.channels@[j]) >= 0);
    lemma_sum_by_nonneg(n.channels@, cap_f());
    assert(forall|j: int|
        0 <= j < n.utxos@.len() ==> uncolored_sat_f()(#[trigger] n.utxos@[j]) >= 0);
    lemma_sum_by_nonneg(n.utxos@, uncolored_sat_f());
    assert(forall|j: int|
        0 <= j < n.utxos@.len() ==> uncolored_sat_f()(#[trigger] n.utxos@[j]) <= sat_f()(
        n.utxos@[j]));
    lemma_sum_by_pointwise_le(n.utxos@, uncolored_sat_f(), sat_f());
}

// ---------------------------------------------------------------------------
// Balances, funding and peers
// ---------------------------------------------------------------------------

impl Node {
    /// Reports the three balances of one asset. A pure read: succeeds
    /// exactly when the node is unlocked and the asset is tracked, and
    /// then reports the ledger's sums.
    pub fn asset_balance(&self, asset_id: u64) -> (r: Result<AssetBalanceResponse, NodeError>)
        requires
            self.wf(),
        ensures
            r is Ok <==> self.unlocked && self.asset_registered(asset_id),
            r matches Ok(b) ==> {
                &&& b.spendable as int == self.spendable_of(asset_id)
                &&& b.offchain_outbound as int == self.offchain_outbound_of(asset_id)
                &&& b.offchain_inbound as int == self.offchain_inbound_of(asset_id)
            },
            !self.unlocked ==> r == Err::<AssetBalanceResponse, NodeError>(NodeError::Locked),
            self.unlocked && !self.asset_registered(asset_id) ==> r == Err::<
                AssetBalanceResponse,
                NodeError,
            >(NodeError::UnknownAsset),
    {
        if !self.unlocked {
            return Err(NodeError::Locked);
        }
        match self.find_asset(asset_id) {
            None => Err(NodeError::UnknownAsset),
            Some(_) => {
                proof {
                    lemma_buckets_bounded(*self, asset_id);
                }
                let spendable = sum_spendable(&self.utxos, asset_id);
                let offchain_outbound = sum_outbound(&self.channels, asset_id);
                let offchain_inbound = sum_inbound(&self.channels, asset_id);
                Ok(AssetBalanceResponse { spendable, offchain_outbound, offchain_inbound })
            },
        }
    }

    /// Receives `amount_sat` fresh satoshis as a new uncolored output
    /// (the wallet observed an on-chain payment to one of its addresses).
    /// Succeeds exactly when the node is unlocked, the amount is positive
    /// and the modeled satoshi range is kept; the new outpoint is
    /// returned.
    pub fn fund(&mut self, amount_sat: u64) -> (r: Result<u64, NodeError>)
        requires
            old(self).wf(),
        ensures
            final(self).wf(),
            r is Err ==> Node::unchanged(*old(self), *final(self)),
            r is Ok <==> old(self).unlocked && amount_sat > 0 && old(self).sat_total() + old(
                self,
            ).cap_total() + amount_sat <= MAX_BTC_SATS && old(self).next_outpoint < u64::MAX,
            !old(self).unlocked ==> r == Err::<u64, NodeError>(NodeError::Locked),
            r matches Ok(op) ==> {
                &&& op == old(self).next_outpoint
                &&& final(self).utxos@ == old(self).utxos@.push(
                    Utxo { outpoint: op, amount_sat, alloc: None },
                )
                &&& final(self).next_outpoint == old(self).next_outpoint + 1
                &&& final(self).btc_spendable_of() == old(self).btc_spendable_of() + amount_sat
                &&& final(self).sat_total() == old(self).sat_total() + amount_sat
                &&& (forall|a: u64| final(self).spendable_of(a) == old(self).spendable_of(a))
                &&& Node::same_control(*old(self), *final(self))
                &&& final(self).next_channel_id == old(self).next_channel_id
                &&& final(self).next_payment_hash == old(self).next_payment_hash
                &&& final(self).next_blinded == old(self).next_blinded
                &&& final(self).next_txid == old(self).next_txid
                &&& final(self).assets@ == old(self).assets@
                &&& final(self).channels@ == old(self).channels@
                &&& final(self).payments@ == old(self).payments@
                &&& final(self).transfers@ == old(self).transfers@
                &&& final(self).peers@ == old(self).peers@
            },
            payments_monotonic(old(self).payments@, final(self).payments@),
    {
        if !self.unlocked {
            return Err(NodeError::Locked);
        }
        if amount_sat == 0 {
            return Err(NodeError::InvalidAmount);
        }
        if self.next_outpoint == u64::MAX {
            return Err(NodeError::Internal);
        }
        proof {
            lemma_sats_bounded(*self);
        }
        let sats = sum_sats(&self.utxos);
        let caps = sum_caps(&self.channels);
        if amount_sat > MAX_BTC_SATS - sats || sats + amount_sat > MAX_BTC_SATS - caps {
            return Err(NodeError::InsufficientBtc);
        }
        let op = self.next_outpoint;
        let u = Utxo { outpoint: op, amount_sat, alloc: None };
        self.utxos.push(u);
        self.next_outpoint = op + 1;
        proof {
            lemma_sum_by_push(old(self).utxos@, sat_f(), u);
            lemma_sum_by_push(old(self).utxos@, uncolored_sat_f(), u);
            assert forall|a: u64| final(self).spendable_of(a) == old(self).spendable_of(a) by {
                lemma_sum_by_push(old(self).utxos@, spendable_f(a), u);
            }
            assert forall|i: int| 0 <= i < self.assets@.len() implies #[trigger] self.account_ok(
                i,
            ) by {
                assert(old(self).account_ok(i));
                lemma_sum_by_push(old(self).utxos@, spendable_f(self.assets@[i].asset_id), u);
            }
            assert(self.wf());
        }
        Ok(op)
    }

    /// Connects a peer; already-connected peers are accepted unchanged.
    pub fn connect_peer(&mut self, peer: u64) -> (r: Result<(), NodeError>)
        requires
            old(self).wf(),
        ensures
            final(self).wf(),
            r is Ok <==> old(self).unlocked,
            r is Err ==> Node::unchanged(*old(self), *final(self)) && r == Err::<(), NodeError>(
                NodeError::Locked,
            ),
            r is Ok ==> final(self).peers@ == if old(self).peers@.contains(peer) {
                old(self).peers@
            } else {
                old(self).peers@.push(peer)
            },
            r is Ok ==> final(self).peers@.contains(peer),
            final(self).utxos@ == old(self).utxos@ && final(self).channels@ == old(self).channels@
                && final(self).payments@ == old(self).payments@ && final(self).transfers@ == old(
                self,
            ).transfers@ && final(self).assets@ == old(self).assets@,
            payments_monotonic(old(self).payments@, final(self).payments@),
    {
        if !self.unlocked {
            return Err(NodeError::Locked);
        }
        let known = self.knows_peer(peer);
        if !known {
            self.peers.push(peer);
        }
        proof {
            if !old(self).peers@.contains(peer) {
                assert(self.peers@[self.peers@.len() - 1] == peer);
            }
            assert(self.peers@.contains(peer));
            assert forall|k: int| 0 <= k < self.assets@.len() implies #[trigger] self.account_ok(
                k,
            ) by {
                assert(old(self).account_ok(k));
            }
        }
        Ok(())
    }

    /// Finds the index of `peer` in the connected set.
    fn find_peer(&self, peer: u64) -> (r: Option<usize>)
        ensures
            r is Some <==> self.peers@.contains(peer),
            r matches Some(i) ==> i < self.peers@.len() && self.peers@[i as int] == peer,
    {
        let mut i: usize = 0;
        while i < self.peers.len()
            invariant
                i <= self.peers@.len(),
                forall|j: int| 0 <= j < i ==> self.peers@[j] != peer,
            decreases self.peers@.len() - i,
        {
            if self.peers[i] == peer {
                proof {
                    assert(self.peers@.contains(peer));
                }
                return Some(i);
            }
            i = i + 1;
        }
        proof {
            if self.peers@.contains(peer) {
                let j = choose|j: int| 0 <= j < self.peers@.len() && self.peers@[j] == peer;
                assert(false);
            }
        }
        None
    }

    /// Is `peer` in the connected set?
    pub fn knows_peer(&self, peer: u64) -> (r: bool)
        ensures
            r == self.peers@.contains(peer),
    {
        let mut i: usize = 0;
        while i < self.peers.len()
            invariant
                i <= self.peers@.len(),
                forall|j: int| 0 <= j < i ==> self.peers@[j] != peer,
            decreases self.peers@.len() - i,
        {
            if self.peers[i] == peer {
                proof {
                    assert(self.peers@.contains(peer));
                }
                return true;
            }
            i = i + 1;
        }
        proof {
            if self.peers@.contains(peer) {
                let j = choose|j: int| 0 <= j < self.peers@.len() && self.peers@[j] == peer;
                assert(false);
            }
        }
        false
    }

    /// Disconnects a peer; unknown peers are refused.
    pub fn disconnect_peer(&mut self, peer: u64) -> (r: Result<(), NodeError>)
        requires
            old(self).wf(),
        ensures
            final(self).wf(),
            r is Err ==> Node::unchanged(*old(self), *final(self)),
            r is Ok <==> old(self).unlocked && old(self).peers@.contains(peer),
            !old(self).unlocked ==> r == Err::<(), NodeError>(NodeError::Locked),
            old(self).unlocked && !old(self).peers@.contains(peer) ==> r == Err::<(), NodeError>(
                NodeError::PeerNotConnected,
            ),
            r is Ok ==> !final(self).peers@.contains(peer),
            final(self).utxos@ == old(self).utxos@ && final(self).channels@ == old(self).channels@
                && final(self).payments@ == old(self).payments@ && final(self).transfers@ == old(
                self,
            ).transfers@ && final(self).assets@ == old(self).assets@,
            payments_monotonic(old(self).payments@, final(self).payments@),
    {
        if !self.unlocked {
            return Err(NodeError::Locked);
        }
        let found = self.find_peer(peer);
        let idx = match found {
            None => {
                return Err(NodeError::PeerNotConnected);
            },
            Some(idx) => idx,
        };
        proof {
            assert(old(self).peers@.contains(peer));
        }
        self.peers.remove(idx);
        proof {
            if self.peers@.contains(peer) {
                let j = choose|j: int| 0 <= j < self.peers@.len() && self.peers@[j] == peer;
                if j < idx {
                    assert(old(self).peers@[j] == peer);
                    assert(false);
                } else {
                    assert(old(self).peers@[j + 1] == peer);
                    assert(false);
                }
            }
            assert forall|k: int| 0 <= k < self.assets@.len() implies #[trigger] self.account_ok(
                k,
            ) by {
                assert(old(self).account_ok(k));
            }
        }
        Ok(())
    }

    /// The peers currently connected.
    pub fn list_peers(&self) -> (r: &Vec<u64>)
        ensures
            r@ == self.peers@,
    {
        &self.peers
    }
}

// ---------------------------------------------------------------------------
// Asset issuance and output management
// ---------------------------------------------------------------------------

/// Seed of the content-derived asset identifier.
pub const ISSUE_SEED: u64 = 0x42a7_5df0_18c3_9b6e;

/// One step mixing a word into an identifier.
pub open spec fn word_mix(acc: u64, w: u64) -> u64 {
    ((acc << 9) | (acc >> 55)) ^ w
}

/// Folds a byte string into an identifier accumulator.
pub open spec fn mix_bytes(acc: u64, s: Seq<u8>) -> u64
    decreases s.len(),
{
    if s.len() == 0 {
        acc
    } else {
        key_mix(mix_bytes(acc, s.drop_last()), s.last())
    }
}

/// Folds a word sequence into an identifier accumulator.
pub open spec fn mix_words(acc: u64, s: Seq<u64>) -> u64
    decreases s.len(),
{
    if s.len() == 0 {
        acc
    } else {
        word_mix(mix_words(acc, s.drop_last()), s.last())
    }
}

/// The content-derived identifier of an asset: a function of its ticker,
/// name, precision and issuance amounts alone.
pub open spec fn asset_id_of(ticker: Seq<u8>, name: Seq<u8>, precision: u8, amounts: Seq<u64>) -> u64 {
    mix_words(key_mix(mix_bytes(mix_bytes(ISSUE_SEED, ticker), name), precision), amounts)
}

/// Folds a byte string into an identifier accumulator.
fn mix_bytes_exec(acc0: u64, s: &Vec<u8>) -> (r: u64)
    ensures
        r == mix_bytes(acc0, s@),
{
    let mut acc: u64 = acc0;
    let mut i: usize = 0;
    while i < s.len()
        invariant
            i <= s@.len(),
            acc == mix_bytes(acc0, s@.take(i as int)),
        decreases s@.len() - i,
    {
        acc = ((acc << 7u64) | (acc >> 57u64)) ^ (s[i] as u64);
        proof {
            assert(s@.take(i + 1).drop_last() =~= s@.take(i as int));
        }
        i = i + 1;
    }
    proof {
        assert(s@.take(s@.len() as int) =~= s@);
    }
    acc
}

/// Folds a word sequence into an identifier accumulator.
fn mix_words_exec(acc0: u64, s: &Vec<u64>) -> (r: u64)
    ensures
        r == mix_words(acc0, s@),
{
    let mut acc: u64 = acc0;
    let mut i: usize = 0;
    while i < s.len()
        invariant
            i <= s@.len(),
            acc == mix_words(acc0, s@.take(i as int)),
        decreases s@.len() - i,
    {
        acc = ((acc << 9u64) | (acc >> 55u64)) ^ s[i];
        proof {
            assert(s@.take(i + 1).drop_last() =~= s@.take(i as int));
        }
        i = i + 1;
    }
    proof {
        assert(s@.take(s@.len() as int) =~= s@);
    }
    acc
}

/// Finds an uncolored output holding at least `need` satoshis.
fn find_splittable(v: &Vec<Utxo>, need: u64) -> (r: Option<usize>)
    ensures
        r matches Some(i) ==> i < v@.len() && v@[i as int].alloc is None && v@[i as int].amount_sat
            >= need,
        r is None ==> forall|j: int|
            0 <= j < v@.len() ==> !((#[trigger] v@[j]).alloc is None && v@[j].amount_sat >= need),
{
    let mut i: usize = 0;
    while i < v.len()
        invariant
            i <= v@.len(),
            forall|j: int|
                0 <= j < i ==> !((#[trigger] v@[j]).alloc is None && v@[j].amount_sat >= need),
        decreases v@.len() - i,
    {
        let ok = match v[i].alloc {
            None => v[i].amount_sat >= need,
            Some(_) => false,
        };
        if ok {
            return Some(i);
        }
        i = i + 1;
    }
    None
}

/// Finds an uncolored output; `None` only when every output is colored.
fn find_uncolored(v: &Vec<Utxo>) -> (r: Option<usize>)
    ensures
        r is None ==> sum_by(v@, uncolored_count_f()) == 0,
        r matches Some(i) ==> i < v@.len() && v@[i as int].alloc is None,
{
    let mut i: usize = 0;
    while i < v.len()
        invariant
            i <= v@.len(),
            forall|j: int| 0 <= j < i ==> (#[trigger] v@[j]).alloc is Some,
        decreases v@.len() - i,
    {
        match v[i].alloc {
            None => {
                return Some(i);
            },
            Some(_) => {},
        }
        i = i + 1;
    }
    proof {
        assert(forall|j: int| 0 <= j < v@.len() ==> uncolored_count_f()(#[trigger] v@[j]) == 0);
        lemma_sum_by_zero(v@, uncolored_count_f());
    }
    None
}

/// Counts the uncolored outputs.
fn count_uncolored(v: &Vec<Utxo>) -> (r: usize)
    ensures
        r as int == sum_by(v@, uncolored_count_f()),
{
    let mut acc: usize = 0;
    let mut i: usize = 0;
    while i < v.len()
        invariant
            i <= v@.len(),
            acc <= i,
            acc as int == sum_by(v@.take(i as int), uncolored_count_f()),
        decreases v@.len() - i,
    {
        proof {
            lemma_sum_by_take_succ(v@, uncolored_count_f(), i as int);
        }
        let add: usize = match v[i].alloc {
            None => 1,
            Some(_) => 0,
        };
        acc = acc + add;
        i = i + 1;
    }
    proof {
        lemma_sum_by_take_all(v@, uncolored_count_f());
    }
    acc
}

/// Does any entry hold zero units?
fn has_zero_amount(v: &Vec<u64>) -> (r: bool)
    ensures
        r <==> exists|i: int| 0 <= i < v@.len() && v@[i] == 0,
{
    let mut i: usize = 0;
    while i < v.len()
        invariant
            i <= v@.len(),
            forall|j: int| 0 <= j < i ==> v@[j] > 0,
        decreases v@.len() - i,
    {
        if v[i] == 0 {
            proof {
                assert(v@[i as int] == 0);
            }
            return true;
        }
        i = i + 1;
    }
    false
}

/// Sums a vector of amounts, refusing overflow.
fn sum_amounts(v: &Vec<u64>) -> (r: Option<u64>)
    ensures
        r matches Some(total) ==> total as int == sum_by(v@, amt_f()),
        r is Some <==> sum_by(v@, amt_f()) <= u64::MAX,
{
    proof {
        assert(forall|j: int| 0 <= j < v@.len() ==> amt_f()(#[trigger] v@[j]) >= 0);
    }
    let mut acc: u64 = 0;
    let mut i: usize = 0;
    while i < v.len()
        invariant
            i <= v@.len(),
            acc as int == sum_by(v@.take(i as int), amt_f()),
            forall|j: int| 0 <= j < v@.len() ==> amt_f()(#[trigger] v@[j]) >= 0,
        decreases v@.len() - i,
    {
        proof {
            lemma_sum_by_take_succ(v@, amt_f(), i as int);
        }
        match acc.checked_add(v[i]) {
            Some(next) => {
                acc = next;
            },
            None => {
                proof {
                    lemma_sum_by_prefix_le(v@, amt_f(), i as int + 1);
                }
                return None;
            },
        }
        i = i + 1;
    }
    proof {
        lemma_sum_by_take_all(v@, amt_f());
    }
    Some(acc)
}

impl Node {
    /// Issues a new asset: derives its content-derived identifier, colors
    /// one uncolored output per allocation amount, and records the asset
    /// with its whole supply spendable and nothing outside the node's
    /// view. Success is owed exactly when the node is unlocked, the
    /// amounts are non-empty and sum inside range, the identifier is
    /// fresh, and one uncolored output exists per allocation.
    pub fn issue_asset(
        &mut self,
        amounts: &Vec<u64>,
        ticker: &Vec<u8>,
        name: &Vec<u8>,
        precision: u8,
    ) -> (r: Result<u64, NodeError>)
        requires
            old(self).wf(),
        ensures
            final(self).wf(),
            r is Err ==> Node::unchanged(*old(self), *final(self)),
            !old(self).unlocked ==> r == Err::<u64, NodeError>(NodeError::Locked),
            r is Ok <==> {
                &&& old(self).unlocked
                &&& amounts@.len() > 0
                &&& (forall|i: int| 0 <= i < amounts@.len() ==> amounts@[i] > 0)
                &&& sum_by(amounts@, amt_f()) <= u64::MAX
                &&& !old(self).asset_registered(
                    asset_id_of(ticker@, name@, precision, amounts@),
                )
                &&& sum_by(old(self).utxos@, uncolored_count_f()) >= amounts@.len()
            },
            r matches Ok(id) ==> {
                &&& id == asset_id_of(ticker@, name@, precision, amounts@)
                &&& final(self).asset_registered(id)
                &&& final(self).assets@.len() == old(self).assets@.len() + 1
                &&& (forall|i: int|
                    0 <= i < old(self).assets@.len() ==> asset_like(
                        old(self).assets@[i],
                        #[trigger] final(self).assets@[i],
                    ))
                &&& {
                    let rec = final(self).assets@.last();
                    &&& rec.asset_id == id
                    &&& rec.ticker@ == ticker@
                    &&& rec.name@ == name@
                    &&& rec.precision == precision
                    &&& rec.issued_supply == sum_by(amounts@, amt_f())
                    &&& rec.off_view == 0
                }
                &&& final(self).issued_supply_of(id) == sum_by(amounts@, amt_f())
                &&& final(self).spendable_of(id) == sum_by(amounts@, amt_f())
                &&& final(self).off_view_of(id) == 0
                &&& final(self).offchain_outbound_of(id) == 0
                &&& final(self).offchain_inbound_of(id) == 0
                &&& final(self).in_transit_of(id) == 0
                &&& (forall|b: u64|
                    b != id ==> final(self).spendable_of(b) == old(self).spendable_of(b))
                &&& final(self).sat_total() == old(self).sat_total()
                &&& final(self).channels@ == old(self).channels@
                &&& final(self).payments@ == old(self).payments@
                &&& final(self).transfers@ == old(self).transfers@
                &&& Node::same_control(*old(self), *final(self))
                &&& Node::same_counters(*old(self), *final(self))
            },
            payments_monotonic(old(self).payments@, final(self).payments@),
    {
        if !self.unlocked {
            return Err(NodeError::Locked);
        }
        if amounts.len() == 0 {
            return Err(NodeError::InvalidAmount);
        }
        if has_zero_amount(amounts) {
            return Err(NodeError::InvalidAmount);
        }
        let total = match sum_amounts(amounts) {
            Some(t) => t,
            None => {
                return Err(NodeError::InvalidAmount);
            },
        };
        let named = mix_bytes_exec(mix_bytes_exec(ISSUE_SEED, ticker), name);
        let seeded: u64 = ((named << 7u64) | (named >> 57u64)) ^ (precision as u64);
        let id = mix_words_exec(seeded, amounts);
        proof {
            assert(seeded == key_mix(named, precision));
            assert(id == asset_id_of(ticker@, name@, precision, amounts@));
        }
        match self.find_asset(id) {
            Some(_) => {
                return Err(NodeError::AssetAlreadyIssued);
            },
            None => {},
        }
        let free = count_uncolored(&self.utxos);
        if free < amounts.len() {
            return Err(NodeError::InsufficientBtc);
        }
        let ghost base = self.utxos@;
        proof {
            assert forall|j: int| 0 <= j < self.utxos@.len() implies spendable_f(id)(
                #[trigger] self.utxos@[j],
            ) == 0 by {
                if let Some(al) = self.utxos@[j].alloc {
                    assert(self.asset_registered(al.asset_id));
                }
            }
            lemma_sum_by_zero(self.utxos@, spendable_f(id));
            assert(amounts@.take(0) =~= Seq::<u64>::empty());
        }
        let mut k: usize = 0;
        while k < amounts.len()
            invariant
                k <= amounts@.len(),
                self.utxos@.len() == base.len(),
                amounts@.len() <= sum_by(base, uncolored_count_f()),
                sum_by(self.utxos@, uncolored_count_f()) == sum_by(base, uncolored_count_f())
                    - k,
                sum_by(self.utxos@, spendable_f(id)) == sum_by(amounts@.take(k as int), amt_f()),
                forall|b: u64|
                    b != id ==> sum_by(self.utxos@, #[trigger] spendable_f(b)) == sum_by(
                        base,
                        spendable_f(b),
                    ),
                sum_by(self.utxos@, sat_f()) == sum_by(base, sat_f()),
                forall|j: int|
                    0 <= j < self.utxos@.len() ==> ((#[trigger] self.utxos@[j]).alloc matches Some(
                        al,
                    ) ==> (al.asset_id == id || old(self).asset_registered(al.asset_id))),
                forall|j: int| 0 <= j < amounts@.len() ==> amounts@[j] > 0,
                allocs_positive(self.utxos@),
                self.assets@ == old(self).assets@,
                self.channels@ == old(self).channels@,
                self.payments@ == old(self).payments@,
                self.transfers@ == old(self).transfers@,
                self.peers@ == old(self).peers@,
                self.unlocked == old(self).unlocked,
                self.node_id == old(self).node_id,
                self.key == old(self).key,
                self.height == old(self).height,
                self.next_outpoint == old(self).next_outpoint,
                self.next_channel_id == old(self).next_channel_id,
                self.next_payment_hash == old(self).next_payment_hash,
                self.next_blinded == old(self).next_blinded,
                self.next_txid == old(self).next_txid,
                sum_by(amounts@, amt_f()) <= u64::MAX,
            decreases amounts@.len() - k,
        {
            proof {
                assert(sum_by(self.utxos@, uncolored_count_f()) > 0);
            }
            let idx = match find_uncolored(&self.utxos) {
                Some(idx) => idx,
                None => {
                    proof {
                        assert(false);
                    }
                    return Err(NodeError::Internal);
                },
            };
            let ghost pre = self.utxos@;
            let ghost u0 = self.utxos@[idx as int];
            let amount = amounts[k];
            let colored = Utxo {
                outpoint: self.utxos[idx].outpoint,
                amount_sat: self.utxos[idx].amount_sat,
                alloc: Some(Alloc { asset_id: id, amount }),
            };
            self.utxos.set(idx, colored);
            proof {
                lemma_sum_by_update(pre, uncolored_count_f(), idx as int, colored);
                lemma_sum_by_update(pre, spendable_f(id), idx as int, colored);
                lemma_sum_by_update(pre, sat_f(), idx as int, colored);
                lemma_sum_by_take_succ(amounts@, amt_f(), k as int);
                assert forall|b: u64|
                    b != id implies sum_by(self.utxos@, #[trigger] spendable_f(b)) == sum_by(
                    base,
                    spendable_f(b),
                ) by {
                    lemma_sum_by_update(pre, spendable_f(b), idx as int, colored);
                }
            }
            k = k + 1;
        }
        let asset = Asset {
            asset_id: id,
            ticker: copy_bytes(ticker),
            name: copy_bytes(name),
            precision,
            issued_supply: total,
            off_view: 0,
        };
        self.assets.push(asset);
        proof {
            let fin = *self;
            assert(amounts@.take(amounts@.len() as int) =~= amounts@);
            assert(fin.assets@ == old(self).assets@.push(asset));
            assert(fin.assets@[fin.assets@.len() - 1].asset_id == id);
            assert(fin.asset_registered(id));
            // the fresh asset is carried by no channel or transfer
            assert(forall|j: int|
                0 <= j < fin.channels@.len() ==> outbound_f(id)(#[trigger] fin.channels@[j])
                    == 0);
            lemma_sum_by_zero(fin.channels@, outbound_f(id));
            assert(forall|j: int|
                0 <= j < fin.channels@.len() ==> inbound_f(id)(#[trigger] fin.channels@[j]) == 0);
            lemma_sum_by_zero(fin.channels@, inbound_f(id));
            assert(forall|j: int|
                0 <= j < fin.transfers@.len() ==> transit_f(id)(#[trigger] fin.transfers@[j])
                    == 0);
            lemma_sum_by_zero(fin.transfers@, transit_f(id));
            // the identifier lookup lands on the pushed record
            let ix = fin.asset_idx_of(id);
            assert(0 <= ix < fin.assets@.len() && fin.assets@[ix].asset_id == id);
            assert forall|i2: int, j2: int|
                0 <= i2 < fin.assets@.len() && 0 <= j2 < fin.assets@.len() && i2 != j2
                    implies (#[trigger] fin.assets@[i2]).asset_id != (
                #[trigger] fin.assets@[j2]).asset_id by {
                if i2 < fin.assets@.len() - 1 && j2 < fin.assets@.len() - 1 {
                    assert(old(self).assets@[i2] == fin.assets@[i2]);
                }
            }
            assert(ix == fin.assets@.len() - 1);
            // everything registered before stays registered
            assert forall|a2: u64|
                old(self).asset_registered(a2) implies fin.asset_registered(a2) by {
                let w = choose|w: int|
                    0 <= w < old(self).assets@.len() && old(self).assets@[w].asset_id == a2;
                assert(fin.assets@[w].asset_id == a2);
            }
            assert forall|j: int|
                0 <= j < fin.utxos@.len() implies ((#[trigger] fin.utxos@[j]).alloc matches Some(
                al,
            ) ==> fin.asset_registered(al.asset_id)) by {
                if let Some(al) = fin.utxos@[j].alloc {
                    if al.asset_id == id {
                        assert(fin.asset_registered(id));
                    } else {
                        assert(old(self).asset_registered(al.asset_id));
                    }
                }
            }
            assert forall|j: int|
                0 <= j < fin.channels@.len() implies ((#[trigger] fin.channels@[j]).asset_id
                matches Some(a2) ==> fin.asset_registered(a2)) by {
                if let Some(a2) = fin.channels@[j].asset_id {
                    assert(old(self).channels@[j].asset_id == Some(a2));
                    assert(old(self).asset_registered(a2));
                }
            }
            assert forall|j: int|
                0 <= j < fin.transfers@.len() implies ((#[trigger] fin.transfers@[j]).asset_id
                matches Some(a2) ==> fin.asset_registered(a2)) by {
                if let Some(a2) = fin.transfers@[j].asset_id {
                    assert(old(self).transfers@[j].asset_id == Some(a2));
                    assert(old(self).asset_registered(a2));
                }
            }
            // conservation for every account
            assert forall|i2: int| 0 <= i2 < fin.assets@.len() implies #[trigger] fin.account_ok(
                i2,
            ) by {
                if i2 == fin.assets@.len() - 1 {
                    assert(fin.in_view_of(id) == sum_by(amounts@, amt_f()));
                } else {
                    let b = fin.assets@[i2].asset_id;
                    assert(old(self).account_ok(i2));
                    assert(old(self).asset_registered(b));
                    assert(b != id);
                }
            }
            assert(fin.wf());
        }
        Ok(id)
    }
}

impl Node {
    /// Carves `num` fresh uncolored outputs of `UTXO_SAT` satoshis each
    /// out of one uncolored output large enough, returning the remainder
    /// as change. Success is owed exactly when the node is unlocked, the
    /// count is positive and inside the outpoint range, and such an
    /// output exists; colorable outputs are what issuance and transfer
    /// anchoring consume.
    pub fn create_utxos(&mut self, num: u8) -> (r: Result<(), NodeError>)
        requires
            old(self).wf(),
        ensures
            final(self).wf(),
            r is Err ==> Node::unchanged(*old(self), *final(self)),
            !old(self).unlocked ==> r == Err::<(), NodeError>(NodeError::Locked),
            r is Ok <==> {
                &&& old(self).unlocked
                &&& num > 0
                &&& old(self).next_outpoint <= u64::MAX - 257
                &&& exists|j: int|
                    0 <= j < old(self).utxos@.len() && (#[trigger] old(self).utxos@[j]).alloc
                        is None && old(self).utxos@[j].amount_sat >= num as int * UTXO_SAT
            },
            r is Ok ==> {
                &&& final(self).sat_total() == old(self).sat_total()
                &&& final(self).btc_spendable_of() == old(self).btc_spendable_of()
                &&& (forall|a: u64| final(self).spendable_of(a) == old(self).spendable_of(a))
                &&& sum_by(final(self).utxos@, uncolored_count_f()) >= sum_by(
                    old(self).utxos@,
                    uncolored_count_f(),
                ) + num - 1
                &&& final(self).assets@ == old(self).assets@
                &&& final(self).channels@ == old(self).channels@
                &&& final(self).payments@ == old(self).payments@
                &&& final(self).transfers@ == old(self).transfers@
                &&& Node::same_control(*old(self), *final(self))
                &&& final(self).next_outpoint == old(self).next_outpoint + num + 1
                &&& final(self).next_channel_id == old(self).next_channel_id
                &&& final(self).next_payment_hash == old(self).next_payment_hash
                &&& final(self).next_blinded == old(self).next_blinded
                &&& final(self).next_txid == old(self).next_txid
            },
            payments_monotonic(old(self).payments@, final(self).payments@),
    {
        if !self.unlocked {
            return Err(NodeError::Locked);
        }
        if num == 0 {
            return Err(NodeError::InvalidAmount);
        }
        if self.next_outpoint > u64::MAX - 257 {
            return Err(NodeError::Internal);
        }
        let need: u64 = num as u64 * UTXO_SAT;
        let idx = match find_splittable(&self.utxos, need) {
            Some(idx) => idx,
            None => {
                return Err(NodeError::InsufficientBtc);
            },
        };
        let u = self.utxos[idx];
        let ghost pre = self.utxos@;
        self.utxos.remove(idx);
        proof {
            lemma_sum_by_remove(pre, sat_f(), idx as int);
            lemma_sum_by_remove(pre, uncolored_sat_f(), idx as int);
            lemma_sum_by_remove(pre, uncolored_count_f(), idx as int);
            assert forall|a: u64| sum_by(self.utxos@, #[trigger] spendable_f(a)) == sum_by(
                pre,
                spendable_f(a),
            ) by {
                lemma_sum_by_remove(pre, spendable_f(a), idx as int);
            }
            assert forall|j: int|
                0 <= j < self.utxos@.len() implies ((#[trigger] self.utxos@[j]).alloc matches Some(
                al,
            ) ==> old(self).asset_registered(al.asset_id)) by {
                if j < idx {
                    assert(self.utxos@[j] == pre[j]);
                } else {
                    assert(self.utxos@[j] == pre[j + 1]);
                }
            }
            assert forall|j: int|
                0 <= j < self.utxos@.len() implies ((#[trigger] self.utxos@[j]).alloc matches Some(
                al,
            ) ==> al.amount > 0) by {
                if j < idx {
                    assert(self.utxos@[j] == pre[j]);
                } else {
                    assert(self.utxos@[j] == pre[j + 1]);
                }
            }
        }
        let ghost mid = self.utxos@;
        let mut made: u8 = 0;
        while made < num
            invariant
                made <= num,
                self.next_outpoint == old(self).next_outpoint,
                old(self).next_outpoint <= u64::MAX - 257,
                sum_by(self.utxos@, sat_f()) == sum_by(mid, sat_f()) + made as int * UTXO_SAT,
                sum_by(self.utxos@, uncolored_sat_f()) == sum_by(mid, uncolored_sat_f())
                    + made as int * UTXO_SAT,
                sum_by(self.utxos@, uncolored_count_f()) == sum_by(mid, uncolored_count_f())
                    + made as int,
                forall|a: u64| sum_by(self.utxos@, #[trigger] spendable_f(a)) == sum_by(
                    mid,
                    spendable_f(a),
                ),
                forall|j: int|
                    0 <= j < self.utxos@.len() ==> ((#[trigger] self.utxos@[j]).alloc matches Some(
                        al,
                    ) ==> old(self).asset_registered(al.asset_id)),
                allocs_positive(self.utxos@),
                self.assets@ == old(self).assets@,
                self.channels@ == old(self).channels@,
                self.payments@ == old(self).payments@,
                self.transfers@ == old(self).transfers@,
                self.peers@ == old(self).peers@,
                self.unlocked == old(self).unlocked,
                self.node_id == old(self).node_id,
                self.key == old(self).key,
                self.height == old(self).height,
                self.next_channel_id == old(self).next_channel_id,
                self.next_payment_hash == old(self).next_payment_hash,
                self.next_blinded == old(self).next_blinded,
                self.next_txid == old(self).next_txid,
            decreases num - made,
        {
            let ghost before = self.utxos@;
            let fresh = Utxo {
                outpoint: self.next_outpoint + made as u64,
                amount_sat: UTXO_SAT,
                alloc: None,
            };
            self.utxos.push(fresh);
            proof {
                lemma_sum_by_push(before, sat_f(), fresh);
                lemma_sum_by_push(before, uncolored_sat_f(), fresh);
                lemma_sum_by_push(before, uncolored_count_f(), fresh);
                assert forall|a: u64| sum_by(self.utxos@, #[trigger] spendable_f(a)) == sum_by(
                    mid,
                    spendable_f(a),
                ) by {
                    lemma_sum_by_push(before, spendable_f(a), fresh);
                }
            }
            made = made + 1;
        }
        let rem = u.amount_sat - need;
        if rem > 0 {
            let ghost before = self.utxos@;
            let change = Utxo { outpoint: self.next_outpoint + num as u64, amount_sat: rem, alloc: None };
            self.utxos.push(change);
            proof {
                lemma_sum_by_push(before, sat_f(), change);
                lemma_sum_by_push(before, uncolored_sat_f(), change);
                lemma_sum_by_push(before, uncolored_count_f(), change);
                assert forall|a: u64| sum_by(self.utxos@, #[trigger] spendable_f(a)) == sum_by(
                    mid,
                    spendable_f(a),
                ) by {
                    lemma_sum_by_push(before, spendable_f(a), change);
                }
            }
        }
        self.next_outpoint = self.next_outpoint + num as u64 + 1;
        proof {
            assert(u.alloc is None);
            assert(sum_by(self.utxos@, sat_f()) == sum_by(old(self).utxos@, sat_f()));
            assert(sum_by(self.utxos@, uncolored_sat_f()) == sum_by(
                old(self).utxos@,
                uncolored_sat_f(),
            ));
            assert forall|i2: int| 0 <= i2 < self.assets@.len() implies #[trigger] self.account_ok(
                i2,
            ) by {
                assert(old(self).account_ok(i2));
            }
            assert(self.wf());
        }
        Ok(())
    }
}

// ---------------------------------------------------------------------------
// Coin selection
// ---------------------------------------------------------------------------

/// No allocation of zero units sits on any output.
pub open spec fn allocs_positive(v: Seq<Utxo>) -> bool {
    forall|j: int| 0 <= j < v.len() ==> ((#[trigger] v[j]).alloc matches Some(al) ==> al.amount > 0)
}

/// Every allocated asset in `v` is an allocated asset of `w` too.
pub open spec fn allocs_within(v: Seq<Utxo>, w: Seq<Utxo>) -> bool {
    forall|j: int|
        0 <= j < v.len() ==> ((#[trigger] v[j]).alloc matches Some(al) ==> exists|k: int|
            0 <= k < w.len() && ((#[trigger] w[k]).alloc matches Some(al2) && al2.asset_id
                == al.asset_id))
}

/// Finds an output carrying an allocation of asset `a`.
fn find_alloc(v: &Vec<Utxo>, a: u64) -> (r: Option<usize>)
    ensures
        r matches Some(i) ==> i < v@.len() && (v@[i as int].alloc matches Some(al) && al.asset_id
            == a),
        r is None ==> sum_by(v@, spendable_f(a)) == 0,
{
    let mut i: usize = 0;
    while i < v.len()
        invariant
            i <= v@.len(),
            forall|j: int|
                0 <= j < i ==> !((#[trigger] v@[j]).alloc matches Some(al) && al.asset_id == a),
        decreases v@.len() - i,
    {
        let hit = match v[i].alloc {
            Some(al) => al.asset_id == a,
            None => false,
        };
        if hit {
            return Some(i);
        }
        i = i + 1;
    }
    proof {
        assert(forall|j: int| 0 <= j < v@.len() ==> spendable_f(a)(#[trigger] v@[j]) == 0);
        lemma_sum_by_zero(v@, spendable_f(a));
    }
    None
}

/// Finds an uncolored output with a positive satoshi amount.
fn find_uncolored_positive(v: &Vec<Utxo>) -> (r: Option<usize>)
    ensures
        r matches Some(i) ==> i < v@.len() && v@[i as int].alloc is None && v@[i as int].amount_sat
            > 0,
        r is None ==> sum_by(v@, uncolored_sat_f()) == 0,
{
    let mut i: usize = 0;
    while i < v.len()
        invariant
            i <= v@.len(),
            forall|j: int|
                0 <= j < i ==> !((#[trigger] v@[j]).alloc is None && v@[j].amount_sat > 0),
        decreases v@.len() - i,
    {
        let hit = match v[i].alloc {
            None => v[i].amount_sat > 0,
            Some(_) => false,
        };
        if hit {
            return Some(i);
        }
        i = i + 1;
    }
    proof {
        assert(forall|j: int| 0 <= j < v@.len() ==> uncolored_sat_f()(#[trigger] v@[j]) == 0);
        lemma_sum_by_zero(v@, uncolored_sat_f());
    }
    None
}

/// Consumes exactly `amount` units of asset `a` from the outputs'
/// allocations: whole allocations are detached, the last touched one is
/// shrunk. Satoshis stay where they are; every other asset's allocations
/// stay untouched.
fn take_asset(v: &mut Vec<Utxo>, a: u64, amount: u64)
    requires
        sum_by(old(v)@, spendable_f(a)) >= amount,
        allocs_positive(old(v)@),
    ensures
        sum_by(final(v)@, spendable_f(a)) == sum_by(old(v)@, spendable_f(a)) - amount,
        forall|b: u64|
            b != a ==> sum_by(final(v)@, #[trigger] spendable_f(b)) == sum_by(
                old(v)@,
                spendable_f(b),
            ),
        sum_by(final(v)@, sat_f()) <= sum_by(old(v)@, sat_f()),
        sum_by(final(v)@, uncolored_sat_f()) == sum_by(old(v)@, uncolored_sat_f()),
        allocs_positive(final(v)@),
        allocs_within(final(v)@, old(v)@),
{
    let ghost orig = v@;
    let mut remaining: u64 = amount;
    while remaining > 0
        invariant
            remaining <= amount,
            sum_by(v@, spendable_f(a)) == sum_by(orig, spendable_f(a)) - (amount - remaining),
            sum_by(orig, spendable_f(a)) >= amount,
            forall|b: u64|
                b != a ==> sum_by(v@, #[trigger] spendable_f(b)) == sum_by(orig, spendable_f(b)),
            sum_by(v@, sat_f()) <= sum_by(orig, sat_f()),
            sum_by(v@, uncolored_sat_f()) == sum_by(orig, uncolored_sat_f()),
            allocs_positive(v@),
            allocs_within(v@, orig),
        decreases remaining,
    {
        proof {
            assert(forall|j: int| 0 <= j < v@.len() ==> spendable_f(a)(#[trigger] v@[j]) >= 0);
            lemma_sum_by_nonneg(v@, spendable_f(a));
        }
        let idx = match find_alloc(v, a) {
            Some(idx) => idx,
            None => {
                proof {
                    assert(false);
                }
                return ;
            },
        };
        let ghost pre = v@;
        let u = v[idx];
        let al = match u.alloc {
            Some(al) => al,
            None => {
                proof {
                    assert(false);
                }
                return ;
            },
        };
        if al.amount <= remaining {
            v.remove(idx);
            proof {
                lemma_sum_by_remove(pre, spendable_f(a), idx as int);
                lemma_sum_by_remove(pre, sat_f(), idx as int);
                lemma_sum_by_remove(pre, uncolored_sat_f(), idx as int);
                assert forall|b: u64|
                    b != a implies sum_by(v@, #[trigger] spendable_f(b)) == sum_by(
                    orig,
                    spendable_f(b),
                ) by {
                    lemma_sum_by_remove(pre, spendable_f(b), idx as int);
                }
                assert forall|j: int|
                    0 <= j < v@.len() implies ((#[trigger] v@[j]).alloc matches Some(al4)
                    ==> al4.amount > 0) by {
                    if j < idx {
                        assert(v@[j] == pre[j]);
                    } else {
                        assert(v@[j] == pre[j + 1]);
                    }
                }
                assert forall|j: int|
                    0 <= j < v@.len() implies ((#[trigger] v@[j]).alloc matches Some(al3)
                    ==> exists|k: int|
                        0 <= k < orig.len() && ((#[trigger] orig[k]).alloc matches Some(al2)
                            && al2.asset_id == al3.asset_id)) by {
                    if j < idx {
                        assert(v@[j] == pre[j]);
                    } else {
                        assert(v@[j] == pre[j + 1]);
                    }
                }
            }
            remaining = remaining - al.amount;
        } else {
            let replaced = Utxo {
                outpoint: u.outpoint,
                amount_sat: u.amount_sat,
                alloc: Some(Alloc { asset_id: a, amount: al.amount - remaining }),
            };
            v.set(idx, replaced);
            proof {
                lemma_sum_by_update(pre, spendable_f(a), idx as int, replaced);
                lemma_sum_by_update(pre, sat_f(), idx as int, replaced);
                lemma_sum_by_update(pre, uncolored_sat_f(), idx as int, replaced);
                assert forall|b: u64|
                    b != a implies sum_by(v@, #[trigger] spendable_f(b)) == sum_by(
                    orig,
                    spendable_f(b),
                ) by {
                    lemma_sum_by_update(pre, spendable_f(b), idx as int, replaced);
                }
                assert forall|j: int|
                    0 <= j < v@.len() implies ((#[trigger] v@[j]).alloc matches Some(al3)
                    ==> exists|k: int|
                        0 <= k < orig.len() && ((#[trigger] orig[k]).alloc matches Some(al2)
                            && al2.asset_id == al3.asset_id)) by {
                    if j != idx {
                        assert(v@[j] == pre[j]);
                    } else {
                        assert(pre[j].alloc matches Some(alp) && alp.asset_id == a);
                    }
                }
            }
            remaining = 0;
        }
    }
    proof {
        assert(amount - remaining == amount);
    }
}

/// Consumes exactly `target` satoshis from the uncolored outputs:
/// whole outputs are spent away, the last touched one keeps the change.
/// Colored outputs and every allocation stay untouched.
fn take_btc(v: &mut Vec<Utxo>, target: u64)
    requires
        sum_by(old(v)@, uncolored_sat_f()) >= target,
        allocs_positive(old(v)@),
    ensures
        sum_by(final(v)@, uncolored_sat_f()) == sum_by(old(v)@, uncolored_sat_f()) - target,
        sum_by(final(v)@, sat_f()) == sum_by(old(v)@, sat_f()) - target,
        forall|b: u64|
            sum_by(final(v)@, #[trigger] spendable_f(b)) == sum_by(old(v)@, spendable_f(b)),
        allocs_positive(final(v)@),
        allocs_within(final(v)@, old(v)@),
{
    let ghost orig = v@;
    let mut remaining: u64 = target;
    while remaining > 0
        invariant
            remaining <= target,
            sum_by(v@, uncolored_sat_f()) == sum_by(orig, uncolored_sat_f()) - (target
                - remaining),
            sum_by(v@, sat_f()) == sum_by(orig, sat_f()) - (target - remaining),
            sum_by(orig, uncolored_sat_f()) >= target,
            forall|b: u64|
                sum_by(v@, #[trigger] spendable_f(b)) == sum_by(orig, spendable_f(b)),
            allocs_positive(v@),
            allocs_within(v@, orig),
        decreases remaining,
    {
        proof {
            assert(forall|j: int|
                0 <= j < v@.len() ==> uncolored_sat_f()(#[trigger] v@[j]) >= 0);
            lemma_sum_by_nonneg(v@, uncolored_sat_f());
        }
        let idx = match find_uncolored_positive(v) {
            Some(idx) => idx,
            None => {
                proof {
                    assert(false);
                }
                return ;
            },
        };
        let ghost pre = v@;
        let u = v[idx];
        if u.amount_sat <= remaining {
            v.remove(idx);
            proof {
                lemma_sum_by_remove(pre, uncolored_sat_f(), idx as int);
                lemma_sum_by_remove(pre, sat_f(), idx as int);
                assert forall|b: u64|
                    sum_by(v@, #[trigger] spendable_f(b)) == sum_by(orig, spendable_f(b)) by {
                    lemma_sum_by_remove(pre, spendable_f(b), idx as int);
                }
                assert forall|j: int|
                    0 <= j < v@.len() implies ((#[trigger] v@[j]).alloc matches Some(al)
                    ==> al.amount > 0) by {
                    if j < idx {
                        assert(v@[j] == pre[j]);
                    } else {
                        assert(v@[j] == pre[j + 1]);
                    }
                }
                assert forall|j: int|
                    0 <= j < v@.len() implies ((#[trigger] v@[j]).alloc matches Some(al3)
                    ==> exists|k: int|
                        0 <= k < orig.len() && ((#[trigger] orig[k]).alloc matches Some(al2)
                            && al2.asset_id == al3.asset_id)) by {
                    if j < idx {
                        assert(v@[j] == pre[j]);
                    } else {
                        assert(v@[j] == pre[j + 1]);
                    }
                }
            }
            remaining = remaining - u.amount_sat;
        } else {
            let replaced = Utxo {
                outpoint: u.outpoint,
                amount_sat: u.amount_sat - remaining,
                alloc: None,
            };
            v.set(idx, replaced);
            proof {
                lemma_sum_by_update(pre, uncolored_sat_f(), idx as int, replaced);
                lemma_sum_by_update(pre, sat_f(), idx as int, replaced);
                assert forall|b: u64|
                    sum_by(v@, #[trigger] spendable_f(b)) == sum_by(orig, spendable_f(b)) by {
                    lemma_sum_by_update(pre, spendable_f(b), idx as int, replaced);
                }
            }
            remaining = 0;
        }
    }
}

// ---------------------------------------------------------------------------
// Channel lifecycle
// ---------------------------------------------------------------------------

impl Node {
    /// Finds the index of the channel with `channel_id`.
    pub fn find_channel(&self, channel_id: u64) -> (r: Option<usize>)
        ensures
            r is Some <==> (exists|j: int|
                0 <= j < self.channels@.len() && (#[trigger] self.channels@[j]).channel_id
                    == channel_id),
            r matches Some(i) ==> i < self.channels@.len() && self.channels@[i as int].channel_id
                == channel_id,
    {
        let mut i: usize = 0;
        while i < self.channels.len()
            invariant
                i <= self.channels@.len(),
                forall|j: int|
                    0 <= j < i ==> (#[trigger] self.channels@[j]).channel_id != channel_id,
            decreases self.channels@.len() - i,
        {
            if self.channels[i].channel_id == channel_id {
                return Some(i);
            }
            i = i + 1;
        }
        None
    }

    /// The active channels, ordered by creation; no implicit filtering.
    pub fn list_channels(&self) -> (r: &Vec<Channel>)
        ensures
            r@ == self.channels@,
    {
        &self.channels
    }

    /// The issued and learned assets.
    pub fn list_assets(&self) -> (r: &Vec<Asset>)
        ensures
            r@ == self.assets@,
    {
        &self.assets
    }

    /// The unspent outputs of the wallet.
    pub fn list_unspents(&self) -> (r: &Vec<Utxo>)
        ensures
            r@ == self.utxos@,
    {
        &self.utxos
    }

    /// The payment history, oldest first.
    pub fn list_payments(&self) -> (r: &Vec<Payment>)
        ensures
            r@ == self.payments@,
    {
        &self.payments
    }

    /// The transfers, oldest first.
    pub fn list_transfers(&self) -> (r: &Vec<Transfer>)
        ensures
            r@ == self.transfers@,
    {
        &self.transfers
    }

    /// Opens a channel to `peer` with `capacity_sat` satoshis, pushing
    /// `push_msat` to the counterparty, optionally committing
    /// `asset_amount` units of `asset_id` to the funding output. The
    /// asset sides are immutable for the channel's lifetime after this.
    /// The channel starts `Pending`; it becomes ready once `sync`
    /// observes the protocol depth. Success is owed exactly when the node
    /// is unlocked, the peer is connected, the amounts are in range and
    /// the spendable balances cover both commitments.
    pub fn open_channel(
        &mut self,
        peer: u64,
        capacity_sat: u64,
        push_msat: u64,
        asset_id: Option<u64>,
        asset_amount: u64,
        public: bool,
        with_anchors: bool,
        fee_base_msat: u32,
        fee_proportional_millionths: u32,
    ) -> (r: Result<u64, NodeError>)
        requires
            old(self).wf(),
        ensures
            final(self).wf(),
            r is Err ==> Node::unchanged(*old(self), *final(self)),
            !old(self).unlocked ==> r == Err::<u64, NodeError>(NodeError::Locked),
            r is Ok <==> {
                &&& old(self).unlocked
                &&& old(self).peers@.contains(peer)
                &&& MIN_CHANNEL_SAT <= capacity_sat <= MAX_CHANNEL_SAT
                &&& push_msat + CHANNEL_FEE_MSAT <= capacity_sat * 1000
                &&& (asset_id matches Some(a) ==> old(self).asset_registered(a) && asset_amount
                    > 0 && old(self).spendable_of(a) >= asset_amount)
                &&& (asset_id is None ==> asset_amount == 0)
                &&& old(self).btc_spendable_of() >= capacity_sat
                &&& old(self).next_channel_id < u64::MAX
                &&& old(self).next_txid < u64::MAX
            },
            r matches Ok(cid) ==> {
                &&& cid == old(self).next_channel_id
                &&& final(self).channels@ == old(self).channels@.push(
                    Channel {
                        channel_id: cid,
                        peer,
                        capacity_sat,
                        local_balance_msat: (capacity_sat * 1000 - push_msat
                            - CHANNEL_FEE_MSAT) as u64,
                        remote_balance_msat: push_msat,
                        fees_msat: CHANNEL_FEE_MSAT,
                        asset_id,
                        asset_local: asset_amount,
                        asset_remote: 0,
                        funding_txid: old(self).next_txid,
                        funding_height: (old(self).height + 1) as u64,
                        close_height: 0,
                        state: ChannelState::Pending,
                        public,
                        with_anchors,
                        fee_base_msat,
                        fee_proportional_millionths,
                    },
                )
                &&& (asset_id matches Some(a) ==> final(self).spendable_of(a) == old(
                    self,
                ).spendable_of(a) - asset_amount && final(self).offchain_outbound_of(a) == old(
                    self,
                ).offchain_outbound_of(a) + asset_amount)
                &&& (forall|b: u64|
                    asset_id != Some(b) ==> final(self).spendable_of(b) == old(self).spendable_of(
                        b,
                    ) && final(self).offchain_outbound_of(b) == old(self).offchain_outbound_of(b))
                &&& (forall|b: u64|
                    final(self).offchain_inbound_of(b) == old(self).offchain_inbound_of(b)
                        && final(self).in_transit_of(b) == old(self).in_transit_of(b))
                &&& final(self).sat_total() + capacity_sat <= old(self).sat_total()
                &&& final(self).btc_spendable_of() == old(self).btc_spendable_of() - capacity_sat
                &&& final(self).assets@ == old(self).assets@
                &&& final(self).payments@ == old(self).payments@
                &&& final(self).transfers@ == old(self).transfers@
                &&& Node::same_control(*old(self), *final(self))
                &&& final(self).next_channel_id == old(self).next_channel_id + 1
                &&& final(self).next_txid == old(self).next_txid + 1
                &&& final(self).next_outpoint == old(self).next_outpoint
                &&& final(self).next_payment_hash == old(self).next_payment_hash
                &&& final(self).next_blinded == old(self).next_blinded
            },
            insufficient_open_err(*old(self), peer, capacity_sat, push_msat, asset_id, asset_amount, r),
            payments_monotonic(old(self).payments@, final(self).payments@),
    {
        if !self.unlocked {
            return Err(NodeError::Locked);
        }
        if !self.knows_peer(peer) {
            return Err(NodeError::PeerNotConnected);
        }
        if capacity_sat < MIN_CHANNEL_SAT || capacity_sat > MAX_CHANNEL_SAT {
            return Err(NodeError::InvalidAmount);
        }
        if push_msat > capacity_sat * 1000 - CHANNEL_FEE_MSAT || capacity_sat * 1000
            < CHANNEL_FEE_MSAT {
            return Err(NodeError::InvalidAmount);
        }
        match asset_id {
            Some(a) => {
                match self.find_asset(a) {
                    None => {
                        return Err(NodeError::UnknownAsset);
                    },
                    Some(_) => {},
                }
                if asset_amount == 0 {
                    return Err(NodeError::InvalidAmount);
                }
                proof {
                    lemma_buckets_bounded(*self, a);
                }
                let have = sum_spendable(&self.utxos, a);
                if have < asset_amount {
                    return Err(NodeError::InsufficientAssets);
                }
            },
            None => {
                if asset_amount != 0 {
                    return Err(NodeError::InvalidAmount);
                }
            },
        }
        proof {
            lemma_sats_bounded(*self);
        }
        let btc = sum_uncolored(&self.utxos);
        if btc < capacity_sat {
            return Err(NodeError::InsufficientBtc);
        }
        if self.next_channel_id == u64::MAX || self.next_txid == u64::MAX {
            return Err(NodeError::Internal);
        }
        // commit the asset allocation to the funding output, then select
        // the satoshis from uncolored outputs only
        if let Some(a) = asset_id {
            take_asset(&mut self.utxos, a, asset_amount);
        }
        take_btc(&mut self.utxos, capacity_sat);
        let cid = self.next_channel_id;
        let chan = Channel {
            channel_id: cid,
            peer,
            capacity_sat,
            local_balance_msat: capacity_sat * 1000 - push_msat - CHANNEL_FEE_MSAT,
            remote_balance_msat: push_msat,
            fees_msat: CHANNEL_FEE_MSAT,
            asset_id,
            asset_local: asset_amount,
            asset_remote: 0,
            funding_txid: self.next_txid,
            funding_height: self.height + 1,
            close_height: 0,
            state: ChannelState::Pending,
            public,
            with_anchors,
            fee_base_msat,
            fee_proportional_millionths,
        };
        self.channels.push(chan);
        self.next_channel_id = cid + 1;
        self.next_txid = self.next_txid + 1;
        proof {
            let fin = *self;
            lemma_sum_by_push(old(self).channels@, cap_f(), chan);
            assert forall|b: u64|
                sum_by(fin.channels@, #[trigger] outbound_f(b)) == sum_by(
                old(self).channels@,
                outbound_f(b),
            ) + (if asset_id == Some(b) {
                asset_amount as int
            } else {
                0
            }) by {
                lemma_sum_by_push(old(self).channels@, outbound_f(b), chan);
            }
            assert forall|b: u64|
                sum_by(fin.channels@, #[trigger] inbound_f(b)) == sum_by(
                old(self).channels@,
                inbound_f(b),
            ) by {
                lemma_sum_by_push(old(self).channels@, inbound_f(b), chan);
            }
            assert(chan_wf(chan));
            assert forall|i2: int| 0 <= i2 < fin.assets@.len() implies #[trigger] fin.account_ok(
                i2,
            ) by {
                assert(old(self).account_ok(i2));
                let b = fin.assets@[i2].asset_id;
                if asset_id == Some(b) {
                    assert(fin.spendable_of(b) == old(self).spendable_of(b) - asset_amount);
                } else {
                    assert(fin.spendable_of(b) == old(self).spendable_of(b));
                }
            }
            assert forall|j: int|
                0 <= j < fin.utxos@.len() implies ((#[trigger] fin.utxos@[j]).alloc matches Some(
                al,
            ) ==> fin.asset_registered(al.asset_id)) by {
                if let Some(al) = fin.utxos@[j].alloc {
                    let k = choose|k: int|
                        0 <= k < old(self).utxos@.len() && ((#[trigger] old(self).utxos@[k]).alloc
                            matches Some(al2) && al2.asset_id == al.asset_id);
                    assert(old(self).asset_registered(al.asset_id));
                }
            }
            assert(fin.wf());
        }
        Ok(cid)
    }

    /// Requests a close of the channel: cooperative by default, forced
    /// when `force` is set or the counterparty is unresponsive. The
    /// channel enters the closing state whose confirmation depth `sync`
    /// later enforces — shallow for cooperative, deep for forced — and
    /// the balances on both ledgers stay as they are until the channel
    /// leaves the active set.
    pub fn close_channel(&mut self, channel_id: u64, force: bool) -> (r: Result<(), NodeError>)
        requires
            old(self).wf(),
        ensures
            final(self).wf(),
            r is Err ==> Node::unchanged(*old(self), *final(self)),
            !old(self).unlocked ==> r == Err::<(), NodeError>(NodeError::Locked),
            r is Ok <==> {
                &&& old(self).unlocked
                &&& (exists|j: int|
                    0 <= j < old(self).channels@.len() && (#[trigger] old(
                        self,
                    ).channels@[j]).channel_id == channel_id)
                &&& !chan_closing(
                    old(self).channels@[channel_idx(old(self).channels@, channel_id)],
                )
            },
            r is Ok ==> {
                &&& final(self).channels@ == old(self).channels@.update(
                    channel_idx(old(self).channels@, channel_id),
                    close_requested(
                        old(self).channels@[channel_idx(old(self).channels@, channel_id)],
                        force,
                        old(self).height,
                    ),
                )
                &&& (forall|b: u64|
                    {
                        &&& final(self).spendable_of(b) == old(self).spendable_of(b)
                        &&& final(self).offchain_outbound_of(b) == old(self).offchain_outbound_of(b)
                        &&& final(self).offchain_inbound_of(b) == old(self).offchain_inbound_of(b)
                        &&& final(self).in_transit_of(b) == old(self).in_transit_of(b)
                    })
                &&& final(self).utxos@ == old(self).utxos@
                &&& final(self).assets@ == old(self).assets@
                &&& final(self).payments@ == old(self).payments@
                &&& final(self).transfers@ == old(self).transfers@
                &&& Node::same_control(*old(self), *final(self))
                &&& Node::same_counters(*old(self), *final(self))
            },
            payments_monotonic(old(self).payments@, final(self).payments@),
    {
        if !self.unlocked {
            return Err(NodeError::Locked);
        }
        let idx = match self.find_channel(channel_id) {
            Some(idx) => idx,
            None => {
                return Err(NodeError::ChannelNotFound);
            },
        };
        proof {
            lemma_channel_idx_unique(self.channels@, channel_id, idx as int);
        }
        let c = self.channels[idx];
        let closing = match c.state {
            ChannelState::ClosingCooperative => true,
            ChannelState::ClosingForced => true,
            _ => false,
        };
        if closing {
            return Err(NodeError::ChannelNotReady);
        }
        let updated = Channel {
            state: if force {
                ChannelState::ClosingForced
            } else {
                ChannelState::ClosingCooperative
            },
            close_height: self.height + 1,
            ..c
        };
        let ghost pre = self.channels@;
        self.channels.set(idx, updated);
        proof {
            let fin = *self;
            assert(updated == close_requested(c, force, old(self).height));
            let gi = channel_idx(old(self).channels@, channel_id);
            assert(gi == idx as int);
            assert(old(self).channels@[gi] == c);
            assert(fin.channels@ == pre.update(idx as int, updated));
            assert(fin.channels@ == old(self).channels@.update(
                gi,
                close_requested(old(self).channels@[gi], force, old(self).height),
            ));
            assert forall|b: u64| fin.offchain_outbound_of(b) == old(self).offchain_outbound_of(
                b,
            ) by {
                lemma_sum_by_update(pre, outbound_f(b), idx as int, updated);
            }
            assert forall|b: u64| fin.offchain_inbound_of(b) == old(self).offchain_inbound_of(
                b,
            ) by {
                lemma_sum_by_update(pre, inbound_f(b), idx as int, updated);
            }
            lemma_sum_by_update(pre, cap_f(), idx as int, updated);
            assert forall|i2: int| 0 <= i2 < fin.assets@.len() implies #[trigger] fin.account_ok(
                i2,
            ) by {
                assert(old(self).account_ok(i2));
            }
            assert(fin.wf());
        }
        Ok(())
    }
}

/// When every admission check of an open passes but a spendable balance
/// falls short, the error names the shortfall: `InsufficientAssets` for
/// the asset commitment, `InsufficientBtc` for the satoshi capacity.
pub open spec fn insufficient_open_err(
    n: Node,
    peer: u64,
    capacity_sat: u64,
    push_msat: u64,
    asset_id: Option<u64>,
    asset_amount: u64,
    r: Result<u64, NodeError>,
) -> bool {
    let admitted = n.unlocked && n.peers@.contains(peer) && MIN_CHANNEL_SAT <= capacity_sat
        <= MAX_CHANNEL_SAT && push_msat + CHANNEL_FEE_MSAT <= capacity_sat * 1000 && (
    asset_id matches Some(a) ==> n.asset_registered(a) && asset_amount > 0) && (asset_id is None
        ==> asset_amount == 0);
    &&& (admitted && (asset_id matches Some(a) && n.spendable_of(a) < asset_amount) ==> r
        == Err::<u64, NodeError>(NodeError::InsufficientAssets))
    &&& (admitted && (asset_id matches Some(a) ==> n.spendable_of(a) >= asset_amount)
        && n.btc_spendable_of() < capacity_sat ==> r == Err::<u64, NodeError>(
        NodeError::InsufficientBtc,
    ))
}

/// The index of the channel with `channel_id` (the first, and with a
/// well-formed node the only, such index).
pub open spec fn channel_idx(chans: Seq<Channel>, channel_id: u64) -> int {
    choose|j: int| 0 <= j < chans.len() && (#[trigger] chans[j]).channel_id == channel_id
}

/// With strictly increasing channel identifiers, any found index is the
/// chosen one.
proof fn lemma_channel_idx_unique(chans: Seq<Channel>, channel_id: u64, at: int)
    requires
        0 <= at < chans.len(),
        chans[at].channel_id == channel_id,
        forall|i: int, j: int|
            0 <= i < j < chans.len() ==> (#[trigger] chans[i]).channel_id < (
            #[trigger] chans[j]).channel_id,
    ensures
        channel_idx(chans, channel_id) == at,
{
    let c = channel_idx(chans, channel_id);
    assert(0 <= c < chans.len() && chans[c].channel_id == channel_id);
    if c < at {
        assert(chans[c].channel_id < chans[at].channel_id);
    } else if c > at {
        assert(chans[at].channel_id < chans[c].channel_id);
    }
}

/// The channel record as a close request leaves it.
pub open spec fn close_requested(c: Channel, force: bool, height: u64) -> Channel {
    Channel {
        state: if force {
            ChannelState::ClosingForced
        } else {
            ChannelState::ClosingCooperative
        },
        close_height: (height + 1) as u64,
        ..c
    }
}

// ---------------------------------------------------------------------------
// Chain synchronization
// ---------------------------------------------------------------------------

/// The channel record as observing height `h` promotes it: a pending
/// funding becomes funded at its first confirmation and ready at the
/// protocol depth; closing and active states are untouched.
pub open spec fn promote(c: Channel, h: u64) -> Channel {
    match c.state {
        ChannelState::Pending | ChannelState::Funded => {
            if confirmations(h, c.funding_height) >= FUNDING_DEPTH {
                Channel { state: ChannelState::Active, ..c }
            } else if confirmations(h, c.funding_height) >= 1 {
                Channel { state: ChannelState::Funded, ..c }
            } else {
                Channel { state: ChannelState::Pending, ..c }
            }
        },
        _ => c,
    }
}

/// Has the channel's closing transaction reached the depth its close
/// type requires at height `h`? Cooperative closes mature at
/// `COOP_CLOSE_DEPTH` confirmations, forced closes only at
/// `FORCE_CLOSE_DEPTH`.
pub open spec fn chan_matured(c: Channel, h: u64) -> bool {
    chan_closing(c) && confirmations(h, c.close_height) >= close_depth(c)
}

/// Promotion changes no field but the state, and neither the closing
/// states nor maturity.
proof fn lemma_promote_facts(c: Channel, h: u64)
    ensures
        promote(c, h).channel_id == c.channel_id,
        promote(c, h).asset_id == c.asset_id,
        promote(c, h).asset_local == c.asset_local,
        promote(c, h).asset_remote == c.asset_remote,
        promote(c, h).capacity_sat == c.capacity_sat,
        chan_matured(promote(c, h), h) == chan_matured(c, h),
        chan_wf(c) ==> chan_wf(promote(c, h)),
{
}

impl Node {
    /// Finds a channel whose close has matured at the node's height.
    fn find_matured(&self) -> (r: Option<usize>)
        ensures
            r matches Some(i) ==> i < self.channels@.len() && chan_matured(
                self.channels@[i as int],
                self.height,
            ),
            r is None ==> forall|j: int|
                0 <= j < self.channels@.len() ==> !chan_matured(
                    #[trigger] self.channels@[j],
                    self.height,
                ),
    {
        let mut i: usize = 0;
        while i < self.channels.len()
            invariant
                i <= self.channels@.len(),
                forall|j: int|
                    0 <= j < i ==> !chan_matured(#[trigger] self.channels@[j], self.height),
            decreases self.channels@.len() - i,
        {
            let c = self.channels[i];
            let closing = match c.state {
                ChannelState::ClosingCooperative => true,
                ChannelState::ClosingForced => true,
                _ => false,
            };
            if closing {
                let depth = match c.state {
                    ChannelState::ClosingForced => FORCE_CLOSE_DEPTH,
                    _ => COOP_CLOSE_DEPTH,
                };
                if self.height >= c.close_height && self.height - c.close_height >= depth - 1 {
                    return Some(i);
                }
            }
            i = i + 1;
        }
        None
    }

    /// Removes the matured channel at `idx` from the active set: its
    /// local satoshis and local asset units come back as an on-chain
    /// output, and the counterparty's units leave this node's view.
    fn finalize_close(&mut self, idx: usize)
        requires
            old(self).wf(),
            idx < old(self).channels@.len(),
            chan_matured(old(self).channels@[idx as int], old(self).height),
            old(self).next_outpoint < u64::MAX,
        ensures
            final(self).wf(),
            final(self).channels@ == old(self).channels@.remove(idx as int),
            final(self).height == old(self).height,
            final(self).payments@ == old(self).payments@,
            final(self).transfers@ == old(self).transfers@,
            final(self).peers@ == old(self).peers@,
            final(self).unlocked == old(self).unlocked,
            final(self).node_id == old(self).node_id,
            final(self).key == old(self).key,
            final(self).next_channel_id == old(self).next_channel_id,
            final(self).next_payment_hash == old(self).next_payment_hash,
            final(self).next_blinded == old(self).next_blinded,
            final(self).next_txid == old(self).next_txid,
            final(self).next_outpoint >= old(self).next_outpoint,
            final(self).next_outpoint <= old(self).next_outpoint + 1,
            forall|b: u64| old(self).spendable_of(b) <= #[trigger] final(self).spendable_of(b),
            final(self).utxos@ == old(self).utxos@ || (final(self).utxos@.len() == old(
                self,
            ).utxos@.len() + 1 && final(self).utxos@.drop_last() == old(self).utxos@),
            assets_identity(old(self).assets@, final(self).assets@),
    {
        let c = self.channels[idx];
        let ghost prechans = self.channels@;
        self.channels.remove(idx);
        proof {
            lemma_sum_by_remove(prechans, cap_f(), idx as int);
            assert forall|b: u64| sum_by(self.channels@, #[trigger] outbound_f(b)) == sum_by(
                prechans,
                outbound_f(b),
            ) - outbound_contrib(c, b) by {
                lemma_sum_by_remove(prechans, outbound_f(b), idx as int);
            }
            assert forall|b: u64| sum_by(self.channels@, #[trigger] inbound_f(b)) == sum_by(
                prechans,
                inbound_f(b),
            ) - inbound_contrib(c, b) by {
                lemma_sum_by_remove(prechans, inbound_f(b), idx as int);
            }
        }
        let sat_back: u64 = c.local_balance_msat / 1000;
        let alloc_back: Option<Alloc> = match c.asset_id {
            Some(a) => if c.asset_local > 0 {
                Some(Alloc { asset_id: a, amount: c.asset_local })
            } else {
                None
            },
            None => None,
        };
        let make_utxo = sat_back > 0 || match alloc_back {
            Some(_) => true,
            None => false,
        };
        let ghost preutxos = self.utxos@;
        if make_utxo {
            let u = Utxo { outpoint: self.next_outpoint, amount_sat: sat_back, alloc: alloc_back };
            self.utxos.push(u);
            self.next_outpoint = self.next_outpoint + 1;
            proof {
                assert(self.utxos@.drop_last() =~= preutxos);
                lemma_sum_by_push(preutxos, sat_f(), u);
                lemma_sum_by_push(preutxos, uncolored_sat_f(), u);
                assert forall|b: u64| sum_by(self.utxos@, #[trigger] spendable_f(b)) == sum_by(
                    preutxos,
                    spendable_f(b),
                ) + (if c.asset_id == Some(b) {
                    c.asset_local as int
                } else {
                    0
                }) by {
                    lemma_sum_by_push(preutxos, spendable_f(b), u);
                }
            }
        } else {
            proof {
                assert(c.asset_local == 0 || c.asset_id is None);
                assert forall|b: u64| sum_by(self.utxos@, #[trigger] spendable_f(b)) == sum_by(
                    preutxos,
                    spendable_f(b),
                ) + (if c.asset_id == Some(b) {
                    c.asset_local as int
                } else {
                    0
                }) by {
                }
            }
        }
        // the counterparty's units leave this node's view
        if let Some(a) = c.asset_id {
            let ai = match self.find_asset(a) {
                Some(ai) => ai,
                None => {
                    proof {
                        assert(old(self).asset_registered(a));
                        assert(false);
                    }
                    return ;
                },
            };
            proof {
                // the counterparty side is bounded by the old inbound sum
                assert(old(self).account_ok(asset_index(old(self).assets@, a)));
                lemma_account_math(*old(self), a, c, idx as int);
            }
            let rec = &self.assets[ai];
            let grown = Asset {
                asset_id: rec.asset_id,
                ticker: copy_bytes(&rec.ticker),
                name: copy_bytes(&rec.name),
                precision: rec.precision,
                issued_supply: rec.issued_supply,
                off_view: rec.off_view + c.asset_remote,
            };
            let ghost preassets = self.assets@;
            self.assets.set(ai, grown);
            proof {
                assert forall|i2: int| 0 <= i2 < self.assets@.len() implies #[trigger] self
                    .account_ok(i2) by {
                    assert(old(self).account_ok(i2));
                    if i2 == ai {
                    } else {
                        assert(self.assets@[i2] == preassets[i2]);
                        assert(self.assets@[i2].asset_id != a);
                    }
                }
                assert forall|a2: u64|
                    old(self).asset_registered(a2) implies self.asset_registered(a2) by {
                    let w = choose|w: int|
                        0 <= w < old(self).assets@.len() && old(self).assets@[w].asset_id == a2;
                    assert(self.assets@[w].asset_id == a2);
                }
                assert(self.wf());
            }
        } else {
            proof {
                assert forall|i2: int| 0 <= i2 < self.assets@.len() implies #[trigger] self
                    .account_ok(i2) by {
                    assert(old(self).account_ok(i2));
                }
                assert(self.wf());
            }
        }
    }
}

/// Removing a matured channel keeps every snapshot relation: each
/// survivor is a snapshot record, and each non-matured snapshot record
/// survives.
proof fn lemma_close_step(snap: Seq<Channel>, cur: Seq<Channel>, nxt: Seq<Channel>, idx: int, h: u64)
    requires
        0 <= idx < cur.len(),
        nxt == cur.remove(idx),
        chan_matured(cur[idx], h),
        forall|k: int| 0 <= k < cur.len() ==> snap.contains(#[trigger] cur[k]),
        forall|j: int|
            0 <= j < snap.len() && !chan_matured(#[trigger] snap[j], h) ==> cur.contains(snap[j]),
    ensures
        forall|k: int| 0 <= k < nxt.len() ==> snap.contains(#[trigger] nxt[k]),
        forall|j: int|
            0 <= j < snap.len() && !chan_matured(#[trigger] snap[j], h) ==> nxt.contains(snap[j]),
{
    assert forall|k: int| 0 <= k < nxt.len() implies snap.contains(#[trigger] nxt[k]) by {
        if k < idx {
            assert(nxt[k] == cur[k]);
        } else {
            assert(nxt[k] == cur[k + 1]);
        }
    }
    assert forall|j: int|
        0 <= j < snap.len() && !chan_matured(#[trigger] snap[j], h) implies nxt.contains(
        snap[j],
    ) by {
        let k0 = choose|k0: int| 0 <= k0 < cur.len() && cur[k0] == snap[j];
        assert(!chan_matured(cur[k0], h));
        if k0 < idx {
            assert(nxt[k0] == snap[j]);
        } else {
            assert(nxt[k0 - 1] == snap[j]);
        }
    }
}

/// After a drain of a promoted list, every matured channel's identifier
/// is gone.
#[verifier::spinoff_prover]
#[verifier::rlimit(100)]
proof fn lemma_sync_matured_gone(oldc: Seq<Channel>, snap: Seq<Channel>, fin: Seq<Channel>, h: u64)
    requires
        snap.len() == oldc.len(),
        forall|j: int| 0 <= j < oldc.len() ==> snap[j] == promote(#[trigger] oldc[j], h),
        forall|i: int, j: int|
            0 <= i < j < oldc.len() ==> (#[trigger] oldc[i]).channel_id < (
            #[trigger] oldc[j]).channel_id,
        forall|k: int| 0 <= k < fin.len() ==> snap.contains(#[trigger] fin[k]),
        forall|k: int| 0 <= k < fin.len() ==> !chan_matured(#[trigger] fin[k], h),
    ensures
        forall|j: int|
            0 <= j < oldc.len() && chan_matured(#[trigger] oldc[j], h) ==> (forall|k: int|
                0 <= k < fin.len() ==> (#[trigger] fin[k]).channel_id != oldc[j].channel_id),
{
    assert forall|j: int|
        0 <= j < oldc.len() && chan_matured(#[trigger] oldc[j], h) implies (forall|k: int|
        0 <= k < fin.len() ==> (#[trigger] fin[k]).channel_id != oldc[j].channel_id) by {
        lemma_promote_facts(oldc[j], h);
        assert(chan_matured(snap[j], h));
        assert forall|k: int|
            0 <= k < fin.len() implies (#[trigger] fin[k]).channel_id != oldc[j].channel_id by {
            assert(snap.contains(fin[k]));
            let j2 = choose|j2: int| 0 <= j2 < snap.len() && snap[j2] == fin[k];
            assert(!chan_matured(fin[k], h));
            if j2 == j {
                assert(false);
            } else {
                lemma_promote_facts(oldc[j2], h);
                assert(snap[j2].channel_id == oldc[j2].channel_id);
                if j2 < j {
                    assert(oldc[j2].channel_id < oldc[j].channel_id);
                } else {
                    assert(oldc[j].channel_id < oldc[j2].channel_id);
                }
            }
        }
    }
}

/// The index of the asset record with identifier `a`.
pub open spec fn asset_index(assets: Seq<Asset>, a: u64) -> int {
    choose|i: int| 0 <= i < assets.len() && assets[i].asset_id == a
}

/// The asset records of `b` keep the identity fields of `a`; only
/// `off_view` may have grown.
pub open spec fn assets_identity(a: Seq<Asset>, b: Seq<Asset>) -> bool {
    &&& a.len() == b.len()
    &&& forall|i: int|
        0 <= i < a.len() ==> {
            &&& (#[trigger] b[i]).asset_id == a[i].asset_id
            &&& b[i].ticker@ == a[i].ticker@
            &&& b[i].name@ == a[i].name@
            &&& b[i].precision == a[i].precision
            &&& b[i].issued_supply == a[i].issued_supply
            &&& b[i].off_view >= a[i].off_view
        }
}

/// For the matured channel `c` at index `idx` of a well-formed node, the
/// off-view growth by `c.asset_remote` stays inside the issued supply.
proof fn lemma_account_math(n: Node, a: u64, c: Channel, idx: int)
    requires
        n.wf(),
        c.asset_id == Some(a),
        0 <= idx < n.channels@.len(),
        n.channels@[idx] == c,
    ensures
        n.off_view_of(a) + c.asset_remote <= n.issued_supply_of(a),
{
    assert(n.asset_registered(a));
    let i = n.asset_idx_of(a);
    assert(n.account_ok(i));
    lemma_buckets_bounded(n, a);
    lemma_sum_by_remove(n.channels@, inbound_f(a), idx);
    assert(forall|j: int|
        0 <= j < n.channels@.remove(idx).len() ==> inbound_f(a)(
            #[trigger] n.channels@.remove(idx)[j],
        ) >= 0);
    lemma_sum_by_nonneg(n.channels@.remove(idx), inbound_f(a));
    assert(inbound_contrib(c, a) <= n.offchain_inbound_of(a));
}

impl Node {
    /// Removes every closing channel whose depth is reached at the
    /// node's height, returning local funds on chain each time.
    #[verifier::spinoff_prover]
    #[verifier::rlimit(100)]
    fn drain_matured(&mut self)
        requires
            old(self).wf(),
            old(self).next_outpoint + old(self).channels@.len() <= u64::MAX,
        ensures
            final(self).wf(),
            final(self).height == old(self).height,
            final(self).payments@ == old(self).payments@,
            final(self).transfers@ == old(self).transfers@,
            final(self).peers@ == old(self).peers@,
            assets_identity(old(self).assets@, final(self).assets@),
            final(self).unlocked == old(self).unlocked,
            final(self).node_id == old(self).node_id,
            final(self).key == old(self).key,
            old(self).next_outpoint <= final(self).next_outpoint <= old(self).next_outpoint
                + old(self).channels@.len(),
            final(self).next_channel_id == old(self).next_channel_id,
            final(self).next_payment_hash == old(self).next_payment_hash,
            final(self).next_blinded == old(self).next_blinded,
            final(self).next_txid == old(self).next_txid,
            forall|k: int|
                0 <= k < final(self).channels@.len() ==> old(self).channels@.contains(
                    #[trigger] final(self).channels@[k],
                ),
            forall|j: int|
                0 <= j < old(self).channels@.len() && !chan_matured(
                    #[trigger] old(self).channels@[j],
                    old(self).height,
                ) ==> final(self).channels@.contains(old(self).channels@[j]),
            forall|k: int|
                0 <= k < final(self).channels@.len() ==> !chan_matured(
                    #[trigger] final(self).channels@[k],
                    old(self).height,
                ),
            forall|b: u64| old(self).spendable_of(b) <= #[trigger] final(self).spendable_of(b),
    {
        let ghost snap = self.channels@;
        proof {
            assert forall|k: int|
                0 <= k < self.channels@.len() implies snap.contains(
                #[trigger] self.channels@[k],
            ) by {
                assert(snap[k] == self.channels@[k]);
            }
            assert forall|j: int|
                0 <= j < snap.len() && !chan_matured(#[trigger] snap[j], self.height)
                    implies self.channels@.contains(snap[j]) by {
                assert(self.channels@[j] == snap[j]);
            }
        }
        loop
            invariant
                self.wf(),
                self.height == old(self).height,
                self.next_outpoint >= old(self).next_outpoint,
                self.next_outpoint + self.channels@.len() <= old(self).next_outpoint
                    + snap.len(),
                snap == old(self).channels@,
                old(self).next_outpoint + snap.len() <= u64::MAX,
                forall|k: int| 0 <= k < self.channels@.len() ==> snap.contains(
                    #[trigger] self.channels@[k],
                ),
                forall|j: int|
                    0 <= j < snap.len() && !chan_matured(#[trigger] snap[j], self.height)
                        ==> self.channels@.contains(snap[j]),
                old(self).utxos@.len() <= self.utxos@.len(),
                self.utxos@.take(old(self).utxos@.len() as int) == old(self).utxos@,
                self.payments@ == old(self).payments@,
                self.transfers@ == old(self).transfers@,
                self.peers@ == old(self).peers@,
                assets_identity(old(self).assets@, self.assets@),
                self.unlocked == old(self).unlocked,
                self.node_id == old(self).node_id,
                self.key == old(self).key,
                self.next_channel_id == old(self).next_channel_id,
                self.next_payment_hash == old(self).next_payment_hash,
                self.next_blinded == old(self).next_blinded,
                self.next_txid == old(self).next_txid,
            ensures
                forall|k: int|
                    0 <= k < self.channels@.len() ==> !chan_matured(
                        #[trigger] self.channels@[k],
                        self.height,
                    ),
            decreases self.channels@.len(),
        {
            let ghost cur = self.channels@;
            let idx = match self.find_matured() {
                None => {
                    break ;
                },
                Some(idx) => idx,
            };
            let ghost before = *self;
            self.finalize_close(idx);
            proof {
                lemma_close_step(snap, cur, self.channels@, idx as int, self.height);
                assert(self.utxos@.take(old(self).utxos@.len() as int) =~= old(self).utxos@);
            }
        }
        proof {
            assert forall|b: u64|
                old(self).spendable_of(b) <= #[trigger] self.spendable_of(b) by {
                assert(forall|j: int|
                    0 <= j < self.utxos@.len() ==> spendable_f(b)(#[trigger] self.utxos@[j])
                        >= 0);
                lemma_sum_by_prefix_le(
                    self.utxos@,
                    spendable_f(b),
                    old(self).utxos@.len() as int,
                );
            }
        }
    }

    /// Advances every channel's funding state for the node's height.
    #[verifier::spinoff_prover]
    #[verifier::rlimit(100)]
    fn promote_channels(&mut self)
        requires
            old(self).wf(),
        ensures
            final(self).wf(),
            final(self).channels@.len() == old(self).channels@.len(),
            forall|j: int|
                0 <= j < old(self).channels@.len() ==> #[trigger] final(self).channels@[j]
                    == promote(old(self).channels@[j], old(self).height),
            final(self).utxos@ == old(self).utxos@,
            final(self).assets@ == old(self).assets@,
            final(self).payments@ == old(self).payments@,
            final(self).transfers@ == old(self).transfers@,
            final(self).peers@ == old(self).peers@,
            final(self).unlocked == old(self).unlocked,
            final(self).height == old(self).height,
            final(self).node_id == old(self).node_id,
            final(self).key == old(self).key,
            Node::same_counters(*old(self), *final(self)),
    {
        let new_height = self.height;
        let n = self.channels.len();
        let mut i: usize = 0;
        while i < n
            invariant
                i <= n,
                n == self.channels@.len(),
                self.channels@.len() == old(self).channels@.len(),
                self.height == new_height,
                new_height <= MAX_HEIGHT,
                forall|j: int|
                    0 <= j < i ==> #[trigger] self.channels@[j] == promote(
                        old(self).channels@[j],
                        new_height,
                    ),
                forall|j: int| i <= j < n ==> #[trigger] self.channels@[j] == old(self).channels@[j],
                self.utxos@ == old(self).utxos@,
                self.assets@ == old(self).assets@,
                self.payments@ == old(self).payments@,
                self.transfers@ == old(self).transfers@,
                self.peers@ == old(self).peers@,
                self.unlocked == old(self).unlocked,
                self.node_id == old(self).node_id,
                self.key == old(self).key,
                self.next_outpoint == old(self).next_outpoint,
                self.next_channel_id == old(self).next_channel_id,
                self.next_payment_hash == old(self).next_payment_hash,
                self.next_blinded == old(self).next_blinded,
                self.next_txid == old(self).next_txid,
            decreases n - i,
        {
            let c = self.channels[i];
            let advance = match c.state {
                ChannelState::Pending => true,
                ChannelState::Funded => true,
                _ => false,
            };
            if advance {
                let confirmed = new_height >= c.funding_height;
                let deep = confirmed && new_height - c.funding_height >= FUNDING_DEPTH - 1;
                let next_state = if deep {
                    ChannelState::Active
                } else if confirmed {
                    ChannelState::Funded
                } else {
                    ChannelState::Pending
                };
                let updated = Channel { state: next_state, ..c };
                self.channels.set(i, updated);
                proof {
                    assert(self.channels@[i as int] == promote(
                        old(self).channels@[i as int],
                        new_height,
                    ));
                }
            } else {
                proof {
                    assert(self.channels@[i as int] == promote(
                        old(self).channels@[i as int],
                        new_height,
                    ));
                }
            }
            i = i + 1;
        }
        proof {
            let mid = *self;
            assert forall|b: u64| sum_by(mid.channels@, #[trigger] outbound_f(b)) == sum_by(
                old(self).channels@,
                outbound_f(b),
            ) by {
                assert(forall|j: int|
                    0 <= j < mid.channels@.len() ==> outbound_f(b)(#[trigger] mid.channels@[j])
                        == outbound_f(b)(old(self).channels@[j]));
                lemma_sum_by_pointwise_eq(mid.channels@, old(self).channels@, outbound_f(b));
            }
            assert forall|b: u64| sum_by(mid.channels@, #[trigger] inbound_f(b)) == sum_by(
                old(self).channels@,
                inbound_f(b),
            ) by {
                assert(forall|j: int|
                    0 <= j < mid.channels@.len() ==> inbound_f(b)(#[trigger] mid.channels@[j])
                        == inbound_f(b)(old(self).channels@[j]));
                lemma_sum_by_pointwise_eq(mid.channels@, old(self).channels@, inbound_f(b));
            }
            assert(forall|j: int|
                0 <= j < mid.channels@.len() ==> cap_f()(#[trigger] mid.channels@[j]) == cap_f()(
                    old(self).channels@[j],
                ));
            lemma_sum_by_pointwise_eq(mid.channels@, old(self).channels@, cap_f());
            assert forall|i2: int| 0 <= i2 < mid.assets@.len() implies #[trigger] mid.account_ok(
                i2,
            ) by {
                assert(old(self).account_ok(i2));
            }
            assert forall|j: int| 0 <= j < mid.channels@.len() implies chan_wf(
                #[trigger] mid.channels@[j],
            ) by {
                lemma_promote_facts(old(self).channels@[j], new_height);
            }
            assert forall|j: int, k: int|
                0 <= j < k < mid.channels@.len() implies (#[trigger] mid.channels@[j]).channel_id
                < (#[trigger] mid.channels@[k]).channel_id by {
                lemma_promote_facts(old(self).channels@[j], new_height);
                lemma_promote_facts(old(self).channels@[k], new_height);
            }
            assert forall|j: int|
                0 <= j < mid.channels@.len() implies ((#[trigger] mid.channels@[j]).asset_id
                matches Some(a2) ==> mid.asset_registered(a2)) by {
                lemma_promote_facts(old(self).channels@[j], new_height);
                assert(old(self).channels@[j].asset_id == mid.channels@[j].asset_id);
            }
            assert forall|j: int|
                0 <= j < mid.channels@.len() implies (#[trigger] mid.channels@[j]).channel_id
                < mid.next_channel_id by {
                lemma_promote_facts(old(self).channels@[j], new_height);
            }
            assert(mid.wf());
        }
    }

    /// Observes the chain at `new_height` and advances every channel
    /// whose preconditions are now met: pending fundings confirm and
    /// become ready at the protocol depth, and a closing channel leaves
    /// the active set exactly when its closing transaction has the depth
    /// its close type requires — after `COOP_CLOSE_DEPTH` confirmations
    /// for a cooperative close, and only after `FORCE_CLOSE_DEPTH` for a
    /// forced one. Nothing advances without this call.
    #[verifier::spinoff_prover]
    #[verifier::rlimit(100)]
    pub fn sync(&mut self, new_height: u64) -> (r: Result<(), NodeError>)
        requires
            old(self).wf(),
        ensures
            final(self).wf(),
            r is Err ==> Node::unchanged(*old(self), *final(self)),
            r is Ok <==> old(self).height <= new_height <= MAX_HEIGHT && old(self).next_outpoint
                + old(self).channels@.len() <= u64::MAX,
            r is Ok ==> {
                &&& final(self).height == new_height
                &&& (forall|j: int|
                    0 <= j < old(self).channels@.len() && chan_matured(
                        #[trigger] old(self).channels@[j],
                        new_height,
                    ) ==> (forall|k: int|
                        0 <= k < final(self).channels@.len()
                            ==> (#[trigger] final(self).channels@[k]).channel_id != old(
                            self,
                        ).channels@[j].channel_id))
                &&& (forall|j: int|
                    0 <= j < old(self).channels@.len() && !chan_matured(
                        #[trigger] old(self).channels@[j],
                        new_height,
                    ) ==> final(self).channels@.contains(
                        promote(old(self).channels@[j], new_height),
                    ))
                &&& (forall|k: int|
                    0 <= k < final(self).channels@.len() ==> !chan_matured(
                        #[trigger] final(self).channels@[k],
                        new_height,
                    ))
                &&& final(self).payments@ == old(self).payments@
                &&& final(self).transfers@ == old(self).transfers@
                &&& final(self).peers@ == old(self).peers@
                &&& assets_identity(old(self).assets@, final(self).assets@)
                &&& final(self).unlocked == old(self).unlocked
                &&& final(self).node_id == old(self).node_id
                &&& final(self).key == old(self).key
                &&& old(self).next_outpoint <= final(self).next_outpoint <= old(
                    self,
                ).next_outpoint + old(self).channels@.len()
                &&& final(self).next_channel_id == old(self).next_channel_id
                &&& final(self).next_payment_hash == old(self).next_payment_hash
                &&& final(self).next_blinded == old(self).next_blinded
                &&& final(self).next_txid == old(self).next_txid
                &&& (forall|b: u64|
                    old(self).spendable_of(b) <= #[trigger] final(self).spendable_of(b))
            },
            payments_monotonic(old(self).payments@, final(self).payments@),
    {
        if new_height < self.height || new_height > MAX_HEIGHT {
            return Err(NodeError::InvalidAmount);
        }
        if self.next_outpoint > u64::MAX - self.channels.len() as u64 {
            return Err(NodeError::Internal);
        }
        self.height = new_height;
        proof {
            assert forall|i2: int| 0 <= i2 < self.assets@.len() implies #[trigger] self.account_ok(
                i2,
            ) by {
                assert(old(self).account_ok(i2));
            }
            assert(self.wf());
        }
        self.promote_channels();
        let ghost snap = self.channels@;
        self.drain_matured();
        proof {
            lemma_sync_matured_gone(old(self).channels@, snap, self.channels@, new_height);
            assert forall|j: int|
                0 <= j < old(self).channels@.len() && !chan_matured(
                    #[trigger] old(self).channels@[j],
                    new_height,
                ) implies self.channels@.contains(
                promote(old(self).channels@[j], new_height),
            ) by {
                lemma_promote_facts(old(self).channels@[j], new_height);
                assert(snap[j] == promote(old(self).channels@[j], new_height));
                assert(!chan_matured(snap[j], new_height));
            }
        }
        Ok(())
    }
}

// ---------------------------------------------------------------------------
// Payments
// ---------------------------------------------------------------------------

/// Can the payment `p` be carried by channel `c`? The channel is ready,
/// goes to the payment's counterparty, and holds sufficient local
/// millisatoshis and asset units.
pub open spec fn route_ok(c: Channel, p: Payment) -> bool {
    &&& c.state == ChannelState::Active
    &&& c.peer == p.peer
    &&& c.local_balance_msat >= p.amt_msat
    &&& (p.asset_id matches Some(a) ==> c.asset_id == Some(a) && c.asset_local >= p.asset_amount)
}

/// Can the inbound payment `p` arrive over channel `c`? Mirror image of
/// `route_ok`: the counterparty side must hold the value.
pub open spec fn route_in_ok(c: Channel, p: Payment) -> bool {
    &&& c.state == ChannelState::Active
    &&& c.peer == p.peer
    &&& c.remote_balance_msat >= p.amt_msat
    &&& (p.asset_id matches Some(a) ==> c.asset_id == Some(a) && c.asset_remote >= p.asset_amount)
}

/// The channel after the HTLCs of payment `p` settle toward the
/// counterparty: both ledgers move together.
pub open spec fn routed(c: Channel, p: Payment) -> Channel {
    Channel {
        local_balance_msat: (c.local_balance_msat - p.amt_msat) as u64,
        remote_balance_msat: (c.remote_balance_msat + p.amt_msat) as u64,
        asset_local: if p.asset_id is Some {
            (c.asset_local - p.asset_amount) as u64
        } else {
            c.asset_local
        },
        asset_remote: if p.asset_id is Some {
            (c.asset_remote + p.asset_amount) as u64
        } else {
            c.asset_remote
        },
        ..c
    }
}

/// The channel after the HTLCs of inbound payment `p` settle toward us.
pub open spec fn routed_in(c: Channel, p: Payment) -> Channel {
    Channel {
        local_balance_msat: (c.local_balance_msat + p.amt_msat) as u64,
        remote_balance_msat: (c.remote_balance_msat - p.amt_msat) as u64,
        asset_local: if p.asset_id is Some {
            (c.asset_local + p.asset_amount) as u64
        } else {
            c.asset_local
        },
        asset_remote: if p.asset_id is Some {
            (c.asset_remote - p.asset_amount) as u64
        } else {
            c.asset_remote
        },
        ..c
    }
}

impl Node {
    /// Finds the index of the payment with `payment_hash`.
    pub fn find_payment(&self, payment_hash: u64) -> (r: Option<usize>)
        ensures
            r is Some <==> (exists|j: int|
                0 <= j < self.payments@.len() && (#[trigger] self.payments@[j]).payment_hash
                    == payment_hash),
            r matches Some(i) ==> i < self.payments@.len()
                && self.payments@[i as int].payment_hash == payment_hash,
    {
        let mut i: usize = 0;
        while i < self.payments.len()
            invariant
                i <= self.payments@.len(),
                forall|j: int|
                    0 <= j < i ==> (#[trigger] self.payments@[j]).payment_hash != payment_hash,
            decreases self.payments@.len() - i,
        {
            if self.payments[i].payment_hash == payment_hash {
                return Some(i);
            }
            i = i + 1;
        }
        None
    }

    /// Sends a spontaneous payment of `amt_msat`, optionally carrying
    /// asset units, to `dest`. Returns at once with the payment recorded
    /// `Pending`; the HTLC outcome arrives later through `settle_htlc`
    /// and only then do balances move.
    pub fn keysend(
        &mut self,
        dest: u64,
        amt_msat: u64,
        asset_id: Option<u64>,
        asset_amount: u64,
    ) -> (r: Result<u64, NodeError>)
        requires
            old(self).wf(),
        ensures
            final(self).wf(),
            r is Err ==> Node::unchanged(*old(self), *final(self)),
            !old(self).unlocked ==> r == Err::<u64, NodeError>(NodeError::Locked),
            r is Ok <==> {
                &&& old(self).unlocked
                &&& amt_msat > 0
                &&& (asset_id matches Some(a) ==> old(self).asset_registered(a) && asset_amount
                    > 0)
                &&& (asset_id is None ==> asset_amount == 0)
                &&& old(self).next_payment_hash < u64::MAX
            },
            r matches Ok(h) ==> {
                &&& h == old(self).next_payment_hash
                &&& final(self).payments@ == old(self).payments@.push(
                    Payment {
                        payment_hash: h,
                        peer: dest,
                        direction: PaymentDirection::Outbound,
                        amt_msat,
                        asset_id,
                        asset_amount,
                        status: HtlcStatus::Pending,
                    },
                )
                &&& final(self).channels@ == old(self).channels@
                &&& final(self).utxos@ == old(self).utxos@
                &&& final(self).transfers@ == old(self).transfers@
                &&& final(self).assets@ == old(self).assets@
                &&& Node::same_control(*old(self), *final(self))
                &&& final(self).next_payment_hash == old(self).next_payment_hash + 1
                &&& final(self).next_outpoint == old(self).next_outpoint
                &&& final(self).next_channel_id == old(self).next_channel_id
                &&& final(self).next_blinded == old(self).next_blinded
                &&& final(self).next_txid == old(self).next_txid
            },
            payments_monotonic(old(self).payments@, final(self).payments@),
    {
        if !self.unlocked {
            return Err(NodeError::Locked);
        }
        if amt_msat == 0 {
            return Err(NodeError::InvalidAmount);
        }
        match asset_id {
            Some(a) => {
                match self.find_asset(a) {
                    None => {
                        return Err(NodeError::UnknownAsset);
                    },
                    Some(_) => {},
                }
                if asset_amount == 0 {
                    return Err(NodeError::InvalidAmount);
                }
            },
            None => {
                if asset_amount != 0 {
                    return Err(NodeError::InvalidAmount);
                }
            },
        }
        if self.next_payment_hash == u64::MAX {
            return Err(NodeError::Internal);
        }
        let h = self.next_payment_hash;
        self.payments.push(
            Payment {
                payment_hash: h,
                peer: dest,
                direction: PaymentDirection::Outbound,
                amt_msat,
                asset_id,
                asset_amount,
                status: HtlcStatus::Pending,
            },
        );
        self.next_payment_hash = h + 1;
        proof {
            assert forall|k: int| 0 <= k < self.assets@.len() implies #[trigger] self.account_ok(
                k,
            ) by {
                assert(old(self).account_ok(k));
            }
            assert(self.wf());
        }
        Ok(h)
    }

    /// Pays a decoded payment invoice: records an outbound `Pending`
    /// payment carrying the invoice's amount, asset pair and payment
    /// hash. Rejects a malformed, unverifiable or expired invoice, an
    /// any-amount invoice (the router needs a concrete amount), and a
    /// payment hash already in the history.
    pub fn send_payment(&mut self, invoice: &Vec<u8>, now: u64) -> (r: Result<u64, NodeError>)
        requires
            old(self).wf(),
        ensures
            final(self).wf(),
            r is Err ==> Node::unchanged(*old(self), *final(self)),
            !old(self).unlocked ==> r == Err::<u64, NodeError>(NodeError::Locked),
            r matches Ok(h) ==> exists|d: LnInvoiceData|
                {
                    &&& #[trigger] ln_data_wf(d)
                    &&& invoice@ == encode_ln_spec(d)
                    &&& !ln_expired(d, now)
                    &&& d.amt_msat is Some
                    &&& h == d.payment_hash
                    &&& final(self).payments@ == old(self).payments@.push(
                        Payment {
                            payment_hash: d.payment_hash,
                            peer: d.payee,
                            direction: PaymentDirection::Outbound,
                            amt_msat: d.amt_msat.unwrap(),
                            asset_id: d.asset_id,
                            asset_amount: if d.asset_amount is Some {
                                d.asset_amount.unwrap()
                            } else {
                                0
                            },
                            status: HtlcStatus::Pending,
                        },
                    )
                },
            r is Ok ==> {
                &&& final(self).channels@ == old(self).channels@
                &&& final(self).utxos@ == old(self).utxos@
                &&& final(self).transfers@ == old(self).transfers@
                &&& final(self).assets@ == old(self).assets@
                &&& Node::same_control(*old(self), *final(self))
                &&& final(self).next_payment_hash >= old(self).next_payment_hash
                &&& final(self).next_outpoint == old(self).next_outpoint
                &&& final(self).next_channel_id == old(self).next_channel_id
                &&& final(self).next_blinded == old(self).next_blinded
                &&& final(self).next_txid == old(self).next_txid
            },
            r is Ok <==> old(self).unlocked && (exists|d: LnInvoiceData|
                {
                    &&& #[trigger] ln_data_wf(d)
                    &&& invoice@ == encode_ln_spec(d)
                    &&& !ln_expired(d, now)
                    &&& d.amt_msat is Some
                    &&& d.payment_hash < u64::MAX
                    &&& (forall|i: int|
                        0 <= i < old(self).payments@.len() ==> (#[trigger] old(
                            self,
                        ).payments@[i]).payment_hash != d.payment_hash)
                }),
            payments_monotonic(old(self).payments@, final(self).payments@),
    {
        if !self.unlocked {
            return Err(NodeError::Locked);
        }
        let d = match decode_ln_invoice(invoice, now) {
            Ok(d) => d,
            Err(e) => {
                proof {
                    if e != NodeError::InvoiceExpired {
                        assert(forall|d2: LnInvoiceData|
                            ln_data_wf(d2) ==> invoice@ != encode_ln_spec(d2));
                    } else {
                        let w = choose|w: LnInvoiceData|
                            ln_data_wf(w) && invoice@ == encode_ln_spec(w) && ln_expired(w, now);
                        assert forall|d2: LnInvoiceData|
                            #[trigger] ln_data_wf(d2) && invoice@ == encode_ln_spec(d2)
                                implies ln_expired(d2, now) by {
                            lemma_ln_encoding_injective(d2, w);
                        }
                    }
                }
                return Err(e);
            },
        };
        proof {
            assert forall|d2: LnInvoiceData|
                ln_data_wf(d2) && invoice@ == encode_ln_spec(d2) implies d2 == d by {
                lemma_ln_encoding_injective(d2, d);
            }
        }
        let amt = match d.amt_msat {
            Some(amt) => amt,
            None => {
                return Err(NodeError::InvalidAmount);
            },
        };
        let h = d.payment_hash;
        if h == u64::MAX {
            return Err(NodeError::Internal);
        }
        match self.find_payment(h) {
            Some(_) => {
                return Err(NodeError::DuplicatePayment);
            },
            None => {},
        }
        let bump = h >= self.next_payment_hash;
        if bump {
            self.next_payment_hash = h + 1;
        }
        let asset_amount = match d.asset_amount {
            Some(x) => x,
            None => 0,
        };
        self.payments.push(
            Payment {
                payment_hash: h,
                peer: d.payee,
                direction: PaymentDirection::Outbound,
                amt_msat: amt,
                asset_id: d.asset_id,
                asset_amount,
                status: HtlcStatus::Pending,
            },
        );
        proof {
            assert forall|k: int| 0 <= k < self.assets@.len() implies #[trigger] self.account_ok(
                k,
            ) by {
                assert(old(self).account_ok(k));
            }
            assert(self.wf());
        }
        Ok(h)
    }

    /// Applies the final HTLC outcome of the pending outbound payment
    /// with `payment_hash`. On fulfillment the payment settles
    /// atomically over any one ready channel to the destination holding
    /// sufficient balance on both ledgers; with none, nothing changes
    /// and the payment stays pending. On failure the payment is marked
    /// `Failed` and every balance stays as it was. A settled payment is
    /// never touched again.
    pub fn settle_htlc(&mut self, payment_hash: u64, fulfilled: bool) -> (r: Result<
        (),
        NodeError,
    >)
        requires
            old(self).wf(),
        ensures
            final(self).wf(),
            r is Err ==> Node::unchanged(*old(self), *final(self)),
            payments_monotonic(old(self).payments@, final(self).payments@),
            r is Ok <==> (exists|i: int|
                0 <= i < old(self).payments@.len() && {
                    let p = #[trigger] old(self).payments@[i];
                    &&& p.payment_hash == payment_hash
                    &&& p.direction == PaymentDirection::Outbound
                    &&& p.status == HtlcStatus::Pending
                } && (fulfilled ==> exists|j: int|
                0 <= j < old(self).channels@.len() && route_ok(
                    #[trigger] old(self).channels@[j],
                    old(self).payments@[payment_idx(old(self).payments@, payment_hash)],
                ))),
            r is Ok && !fulfilled ==> {
                &&& final(self).payments@ == old(self).payments@.update(
                    payment_idx(old(self).payments@, payment_hash),
                    Payment {
                        status: HtlcStatus::Failed,
                        ..old(self).payments@[payment_idx(old(self).payments@, payment_hash)]
                    },
                )
                &&& final(self).channels@ == old(self).channels@
                &&& final(self).utxos@ == old(self).utxos@
                &&& final(self).transfers@ == old(self).transfers@
                &&& final(self).assets@ == old(self).assets@
            },
            r is Ok && fulfilled ==> {
                let p = old(self).payments@[payment_idx(old(self).payments@, payment_hash)];
                &&& final(self).payments@ == old(self).payments@.update(
                    payment_idx(old(self).payments@, payment_hash),
                    Payment { status: HtlcStatus::Succeeded, ..p },
                )
                &&& (exists|j: int|
                    0 <= j < old(self).channels@.len() && route_ok(
                        #[trigger] old(self).channels@[j],
                        p,
                    ) && final(self).channels@ == old(self).channels@.update(
                        j,
                        routed(old(self).channels@[j], p),
                    ))
                &&& (p.asset_id matches Some(a) ==> {
                    &&& final(self).offchain_outbound_of(a) == old(self).offchain_outbound_of(a)
                        - p.asset_amount
                    &&& final(self).offchain_inbound_of(a) == old(self).offchain_inbound_of(a)
                        + p.asset_amount
                })
                &&& (forall|b: u64|
                    p.asset_id != Some(b) ==> {
                        &&& final(self).offchain_outbound_of(b) == old(self).offchain_outbound_of(
                            b,
                        )
                        &&& final(self).offchain_inbound_of(b) == old(self).offchain_inbound_of(b)
                    })
                &&& (forall|b: u64|
                    {
                        &&& final(self).spendable_of(b) == old(self).spendable_of(b)
                        &&& final(self).in_transit_of(b) == old(self).in_transit_of(b)
                    })
                &&& final(self).utxos@ == old(self).utxos@
                &&& final(self).transfers@ == old(self).transfers@
                &&& final(self).assets@ == old(self).assets@
            },
            r is Ok ==> Node::same_control(*old(self), *final(self)) && Node::same_counters(
                *old(self),
                *final(self),
            ),
    {
        let pidx = match self.find_payment(payment_hash) {
            Some(pidx) => pidx,
            None => {
                return Err(NodeError::PaymentNotFound);
            },
        };
        let p = self.payments[pidx];
        let pending_outbound = match (p.direction, p.status) {
            (PaymentDirection::Outbound, HtlcStatus::Pending) => true,
            _ => false,
        };
        if !pending_outbound {
            return Err(NodeError::PaymentNotFound);
        }
        proof {
            lemma_payment_idx_unique(self.payments@, payment_hash, pidx as int);
        }
        if !fulfilled {
            let ghost prepay = self.payments@;
            self.payments.set(pidx, Payment { status: HtlcStatus::Failed, ..p });
            proof {
                assert forall|k: int|
                    0 <= k < self.assets@.len() implies #[trigger] self.account_ok(k) by {
                    assert(old(self).account_ok(k));
                }
                assert(self.wf());
            }
            return Ok(());
        }
        // any ready channel to the destination with sufficient balance
        let mut j: usize = 0;
        let n = self.channels.len();
        let mut hit: Option<usize> = None;
        while j < n
            invariant
                j <= n,
                n == self.channels@.len(),
                self.payments@[pidx as int] == p,
                pidx < self.payments@.len(),
                hit is None ==> forall|k: int|
                    0 <= k < j ==> !route_ok(#[trigger] self.channels@[k], p),
                hit matches Some(c) ==> c < self.channels@.len() && route_ok(
                    self.channels@[c as int],
                    p,
                ),
            ensures
                hit is None ==> forall|k: int|
                    0 <= k < self.channels@.len() ==> !route_ok(#[trigger] self.channels@[k], p),
            decreases n - j,
        {
            let c = self.channels[j];
            let ok_state = match c.state {
                ChannelState::Active => true,
                _ => false,
            };
            let ok_asset = match p.asset_id {
                Some(a) => match c.asset_id {
                    Some(ca) => ca == a && c.asset_local >= p.asset_amount,
                    None => false,
                },
                None => true,
            };
            if ok_state && c.peer == p.peer && c.local_balance_msat >= p.amt_msat && ok_asset {
                hit = Some(j);
                break ;
            }
            j = j + 1;
        }
        let cidx = match hit {
            Some(cidx) => cidx,
            None => {
                return Err(NodeError::NoRoute);
            },
        };
        let c = self.channels[cidx];
        proof {
            assert(route_ok(c, p));
            assert(chan_wf(c));
            if let Some(a) = p.asset_id {
                lemma_route_asset_bound(*self, cidx as int, a);
            }
        }
        let moved = Channel {
            local_balance_msat: c.local_balance_msat - p.amt_msat,
            remote_balance_msat: c.remote_balance_msat + p.amt_msat,
            asset_local: if p.asset_id.is_some() {
                c.asset_local - p.asset_amount
            } else {
                c.asset_local
            },
            asset_remote: if p.asset_id.is_some() {
                c.asset_remote + p.asset_amount
            } else {
                c.asset_remote
            },
            ..c
        };
        let ghost prechans = self.channels@;
        self.channels.set(cidx, moved);
        self.payments.set(pidx, Payment { status: HtlcStatus::Succeeded, ..p });
        proof {
            assert(moved == routed(c, p));
            lemma_sum_by_update(prechans, cap_f(), cidx as int, moved);
            assert forall|b: u64| sum_by(self.channels@, #[trigger] outbound_f(b)) == sum_by(
                prechans,
                outbound_f(b),
            ) - outbound_contrib(c, b) + outbound_contrib(moved, b) by {
                lemma_sum_by_update(prechans, outbound_f(b), cidx as int, moved);
            }
            assert forall|b: u64| sum_by(self.channels@, #[trigger] inbound_f(b)) == sum_by(
                prechans,
                inbound_f(b),
            ) - inbound_contrib(c, b) + inbound_contrib(moved, b) by {
                lemma_sum_by_update(prechans, inbound_f(b), cidx as int, moved);
            }
            assert forall|k: int| 0 <= k < self.assets@.len() implies #[trigger] self.account_ok(
                k,
            ) by {
                assert(old(self).account_ok(k));
            }
            assert(self.wf());
        }
        Ok(())
    }
}

/// The index of the payment with `payment_hash`.
pub open spec fn payment_idx(payments: Seq<Payment>, payment_hash: u64) -> int {
    choose|i: int|
        0 <= i < payments.len() && (#[trigger] payments[i]).payment_hash == payment_hash
}

/// With pairwise distinct payment hashes, any found index is the chosen
/// one.
proof fn lemma_payment_idx_unique(payments: Seq<Payment>, payment_hash: u64, at: int)
    requires
        0 <= at < payments.len(),
        payments[at].payment_hash == payment_hash,
        forall|i: int, j: int|
            0 <= i < j < payments.len() ==> (#[trigger] payments[i]).payment_hash != (
            #[trigger] payments[j]).payment_hash,
    ensures
        payment_idx(payments, payment_hash) == at,
{
    let c = payment_idx(payments, payment_hash);
    assert(0 <= c < payments.len() && payments[c].payment_hash == payment_hash);
    if c < at {
        assert(payments[c].payment_hash != payments[at].payment_hash);
    } else if c > at {
        assert(payments[at].payment_hash != payments[c].payment_hash);
    }
}

/// For a well-formed node, the asset sides of channel `cidx` carrying
/// asset `a` fit together inside the issued supply, so moving units
/// between the sides cannot overflow.
proof fn lemma_route_asset_bound(n: Node, cidx: int, a: u64)
    requires
        n.wf(),
        0 <= cidx < n.channels@.len(),
        n.channels@[cidx].asset_id == Some(a),
    ensures
        n.channels@[cidx].asset_local + n.channels@[cidx].asset_remote <= u64::MAX,
{
    assert(n.asset_registered(a));
    lemma_buckets_bounded(n, a);
    assert(forall|j: int|
        0 <= j < n.channels@.len() ==> outbound_f(a)(#[trigger] n.channels@[j]) >= 0);
    lemma_sum_by_element_le(n.channels@, outbound_f(a), cidx);
    assert(forall|j: int|
        0 <= j < n.channels@.len() ==> inbound_f(a)(#[trigger] n.channels@[j]) >= 0);
    lemma_sum_by_element_le(n.channels@, inbound_f(a), cidx);
}

/// Status reported for an invoice.
#[derive(Clone, Copy, Debug, PartialEq, Eq, Structural)]
pub enum InvoiceStatus {
    /// No settled payment with the invoice's hash yet.
    Pending,
    /// A payment with the invoice's hash succeeded.
    Succeeded,
    /// A payment with the invoice's hash failed.
    Failed,
    /// The invoice's expiry has elapsed.
    Expired,
}

impl Node {
    /// Issues a payment invoice owed to this node: a fresh payment hash,
    /// the given expiry, an optional amount, and, when present, the
    /// asset id / asset amount extension pair. Decoding the returned
    /// string with any later `now` inside the expiry reproduces every
    /// field.
    pub fn ln_invoice(
        &mut self,
        amt_msat: Option<u64>,
        expiry_sec: u64,
        asset_id: Option<u64>,
        asset_amount: Option<u64>,
        now: u64,
    ) -> (r: Result<Vec<u8>, NodeError>)
        requires
            old(self).wf(),
        ensures
            final(self).wf(),
            r is Err ==> Node::unchanged(*old(self), *final(self)),
            !old(self).unlocked ==> r == Err::<Vec<u8>, NodeError>(NodeError::Locked),
            r is Ok <==> {
                &&& old(self).unlocked
                &&& (asset_id is Some <==> asset_amount is Some)
                &&& (asset_id matches Some(a) ==> old(self).asset_registered(a))
                &&& old(self).next_payment_hash < u64::MAX
            },
            r matches Ok(v) ==> v@ == encode_ln_spec(
                LnInvoiceData {
                    payee: old(self).node_id,
                    payment_hash: old(self).next_payment_hash,
                    timestamp: now,
                    expiry_sec,
                    amt_msat,
                    asset_id,
                    asset_amount,
                },
            ),
            r is Ok ==> Node::same_state(
                Node { next_payment_hash: final(self).next_payment_hash, ..*old(self) },
                *final(self),
            ) && final(self).next_payment_hash == old(self).next_payment_hash + 1
                && final(self).unlocked == old(self).unlocked,
            payments_monotonic(old(self).payments@, final(self).payments@),
    {
        if !self.unlocked {
            return Err(NodeError::Locked);
        }
        let pair_ok = match (asset_id, asset_amount) {
            (Some(_), Some(_)) => true,
            (None, None) => true,
            _ => false,
        };
        if !pair_ok {
            return Err(NodeError::InvalidAmount);
        }
        if let Some(a) = asset_id {
            match self.find_asset(a) {
                None => {
                    return Err(NodeError::UnknownAsset);
                },
                Some(_) => {},
            }
        }
        if self.next_payment_hash == u64::MAX {
            return Err(NodeError::Internal);
        }
        let d = LnInvoiceData {
            payee: self.node_id,
            payment_hash: self.next_payment_hash,
            timestamp: now,
            expiry_sec,
            amt_msat,
            asset_id,
            asset_amount,
        };
        self.next_payment_hash = self.next_payment_hash + 1;
        let out = encode_ln_invoice(&d);
        proof {
            assert forall|k: int| 0 <= k < self.assets@.len() implies #[trigger] self.account_ok(
                k,
            ) by {
                assert(old(self).account_ok(k));
            }
            assert(self.wf());
        }
        Ok(out)
    }

    /// Reports the status of a payment invoice: expired once its expiry
    /// elapsed, otherwise the status of the payment with its hash, or
    /// pending when no such payment is recorded yet.
    pub fn invoice_status(&self, invoice: &Vec<u8>, now: u64) -> (r: Result<
        InvoiceStatus,
        NodeError,
    >)
        requires
            self.wf(),
        ensures
            !self.unlocked ==> r == Err::<InvoiceStatus, NodeError>(NodeError::Locked),
            self.unlocked ==> {
                &&& (forall|d: LnInvoiceData|
                    ln_data_wf(d) && invoice@ == encode_ln_spec(d) && ln_expired(d, now) ==> r
                        == Ok::<InvoiceStatus, NodeError>(InvoiceStatus::Expired))
                &&& (forall|d: LnInvoiceData|
                    #![trigger encode_ln_spec(d)]
                    ln_data_wf(d) && invoice@ == encode_ln_spec(d) && !ln_expired(d, now) ==> {
                        &&& (forall|i: int|
                            0 <= i < self.payments@.len() && (#[trigger] self.payments@[i]).payment_hash
                                == d.payment_hash ==> r == Ok::<InvoiceStatus, NodeError>(
                                status_of(self.payments@[i].status),
                            ))
                        &&& ((forall|i: int|
                            0 <= i < self.payments@.len() ==> (#[trigger] self.payments@[i]).payment_hash
                                != d.payment_hash) ==> r == Ok::<InvoiceStatus, NodeError>(
                                InvoiceStatus::Pending,
                            ))
                    })
                &&& ((forall|d: LnInvoiceData|
                    #![trigger encode_ln_spec(d)]
                    ln_data_wf(d) ==> invoice@ != encode_ln_spec(d)) ==> r is Err)
            },
    {
        if !self.unlocked {
            return Err(NodeError::Locked);
        }
        let d = match decode_ln_invoice(invoice, now) {
            Ok(d) => d,
            Err(e) => {
                if e == NodeError::InvoiceExpired {
                    return Ok(InvoiceStatus::Expired);
                }
                return Err(e);
            },
        };
        proof {
            assert forall|d2: LnInvoiceData|
                ln_data_wf(d2) && invoice@ == encode_ln_spec(d2) implies d2 == d by {
                crate::codec::lemma_ln_encoding_injective(d2, d);
            }
        }
        match self.find_payment(d.payment_hash) {
            None => Ok(InvoiceStatus::Pending),
            Some(i) => {
                proof {
                    lemma_payment_idx_unique(self.payments@, d.payment_hash, i as int);
                    assert forall|k: int|
                        0 <= k < self.payments@.len() && (#[trigger] self.payments@[k]).payment_hash
                            == d.payment_hash implies k == i as int by {
                        lemma_payment_idx_unique(self.payments@, d.payment_hash, k);
                    }
                }
                match self.payments[i].status {
                    HtlcStatus::Pending => Ok(InvoiceStatus::Pending),
                    HtlcStatus::Succeeded => Ok(InvoiceStatus::Succeeded),
                    HtlcStatus::Failed => Ok(InvoiceStatus::Failed),
                }
            },
        }
    }

    /// Records the arrival of an HTLC set paying this node
    /// `payment_hash` worth `amt_msat` and the optional asset units,
    /// over any one ready channel from `from_peer` whose counterparty
    /// side holds the value. Both ledgers move together and the payment
    /// is recorded `Succeeded`; with no such channel the HTLCs are
    /// refused and nothing changes.
    pub fn receive_htlc(
        &mut self,
        payment_hash: u64,
        from_peer: u64,
        amt_msat: u64,
        asset_id: Option<u64>,
        asset_amount: u64,
    ) -> (r: Result<(), NodeError>)
        requires
            old(self).wf(),
        ensures
            final(self).wf(),
            r is Err ==> Node::unchanged(*old(self), *final(self)),
            payments_monotonic(old(self).payments@, final(self).payments@),
            r is Ok ==> {
                let p = Payment {
                    payment_hash,
                    peer: from_peer,
                    direction: PaymentDirection::Inbound,
                    amt_msat,
                    asset_id,
                    asset_amount,
                    status: HtlcStatus::Succeeded,
                };
                &&& final(self).payments@ == old(self).payments@.push(p)
                &&& (exists|j: int|
                    0 <= j < old(self).channels@.len() && route_in_ok(
                        #[trigger] old(self).channels@[j],
                        p,
                    ) && final(self).channels@ == old(self).channels@.update(
                        j,
                        routed_in(old(self).channels@[j], p),
                    ))
                &&& (asset_id matches Some(a) ==> {
                    &&& final(self).offchain_outbound_of(a) == old(self).offchain_outbound_of(a)
                        + asset_amount
                    &&& final(self).offchain_inbound_of(a) == old(self).offchain_inbound_of(a)
                        - asset_amount
                })
                &&& (forall|b: u64|
                    asset_id != Some(b) ==> {
                        &&& final(self).offchain_outbound_of(b) == old(self).offchain_outbound_of(
                            b,
                        )
                        &&& final(self).offchain_inbound_of(b) == old(self).offchain_inbound_of(b)
                    })
                &&& (forall|b: u64|
                    {
                        &&& final(self).spendable_of(b) == old(self).spendable_of(b)
                        &&& final(self).in_transit_of(b) == old(self).in_transit_of(b)
                    })
                &&& final(self).utxos@ == old(self).utxos@
                &&& final(self).transfers@ == old(self).transfers@
                &&& final(self).assets@ == old(self).assets@
                &&& Node::same_control(*old(self), *final(self))
                &&& final(self).next_payment_hash >= old(self).next_payment_hash
                &&& final(self).next_outpoint == old(self).next_outpoint
                &&& final(self).next_channel_id == old(self).next_channel_id
                &&& final(self).next_blinded == old(self).next_blinded
                &&& final(self).next_txid == old(self).next_txid
            },
            r is Ok <==> {
                &&& (forall|i: int|
                    0 <= i < old(self).payments@.len() ==> (#[trigger] old(
                        self,
                    ).payments@[i]).payment_hash != payment_hash)
                &&& (asset_id is Some ==> asset_amount > 0)
                &&& (asset_id is None ==> asset_amount == 0)
                &&& payment_hash < u64::MAX
                &&& (exists|j: int|
                    0 <= j < old(self).channels@.len() && route_in_ok(
                        #[trigger] old(self).channels@[j],
                        Payment {
                            payment_hash,
                            peer: from_peer,
                            direction: PaymentDirection::Inbound,
                            amt_msat,
                            asset_id,
                            asset_amount,
                            status: HtlcStatus::Succeeded,
                        },
                    ))
            },
    {
        match self.find_payment(payment_hash) {
            Some(_) => {
                return Err(NodeError::DuplicatePayment);
            },
            None => {},
        }
        let pair_ok = match asset_id {
            Some(_) => asset_amount > 0,
            None => asset_amount == 0,
        };
        if !pair_ok {
            return Err(NodeError::InvalidAmount);
        }
        if payment_hash == u64::MAX {
            return Err(NodeError::Internal);
        }
        let p = Payment {
            payment_hash,
            peer: from_peer,
            direction: PaymentDirection::Inbound,
            amt_msat,
            asset_id,
            asset_amount,
            status: HtlcStatus::Succeeded,
        };
        let mut j: usize = 0;
        let n = self.channels.len();
        let mut hit: Option<usize> = None;
        while j < n
            invariant
                j <= n,
                n == self.channels@.len(),
                p.peer == from_peer,
                p.amt_msat == amt_msat,
                p.asset_id == asset_id,
                p.asset_amount == asset_amount,
                hit is None ==> forall|k: int|
                    0 <= k < j ==> !route_in_ok(#[trigger] self.channels@[k], p),
                hit matches Some(c) ==> c < self.channels@.len() && route_in_ok(
                    self.channels@[c as int],
                    p,
                ),
            ensures
                hit is None ==> forall|k: int|
                    0 <= k < self.channels@.len() ==> !route_in_ok(
                        #[trigger] self.channels@[k],
                        p,
                    ),
            decreases n - j,
        {
            let c = self.channels[j];
            let ok_state = match c.state {
                ChannelState::Active => true,
                _ => false,
            };
            let ok_asset = match asset_id {
                Some(a) => match c.asset_id {
                    Some(ca) => ca == a && c.asset_remote >= asset_amount,
                    None => false,
                },
                None => true,
            };
            if ok_state && c.peer == from_peer && c.remote_balance_msat >= amt_msat && ok_asset {
                hit = Some(j);
                break ;
            }
            j = j + 1;
        }
        let cidx = match hit {
            Some(cidx) => cidx,
            None => {
                return Err(NodeError::NoRoute);
            },
        };
        let c = self.channels[cidx];
        proof {
            assert(route_in_ok(c, p));
            assert(chan_wf(c));
            if let Some(a) = asset_id {
                lemma_route_asset_bound(*self, cidx as int, a);
            }
        }
        let moved = Channel {
            local_balance_msat: c.local_balance_msat + amt_msat,
            remote_balance_msat: c.remote_balance_msat - amt_msat,
            asset_local: if asset_id.is_some() {
                c.asset_local + asset_amount
            } else {
                c.asset_local
            },
            asset_remote: if asset_id.is_some() {
                c.asset_remote - asset_amount
            } else {
                c.asset_remote
            },
            ..c
        };
        let ghost prechans = self.channels@;
        self.channels.set(cidx, moved);
        if payment_hash >= self.next_payment_hash {
            self.next_payment_hash = payment_hash + 1;
        }
        self.payments.push(p);
        proof {
            assert(moved == routed_in(c, p));
            lemma_sum_by_update(prechans, cap_f(), cidx as int, moved);
            assert forall|b: u64| sum_by(self.channels@, #[trigger] outbound_f(b)) == sum_by(
                prechans,
                outbound_f(b),
            ) - outbound_contrib(c, b) + outbound_contrib(moved, b) by {
                lemma_sum_by_update(prechans, outbound_f(b), cidx as int, moved);
            }
            assert forall|b: u64| sum_by(self.channels@, #[trigger] inbound_f(b)) == sum_by(
                prechans,
                inbound_f(b),
            ) - inbound_contrib(c, b) + inbound_contrib(moved, b) by {
                lemma_sum_by_update(prechans, inbound_f(b), cidx as int, moved);
            }
            assert forall|k: int| 0 <= k < self.assets@.len() implies #[trigger] self.account_ok(
                k,
            ) by {
                assert(old(self).account_ok(k));
            }
            assert(self.wf());
        }
        Ok(())
    }
}

/// The invoice status matching a payment status.
pub open spec fn status_of(s: HtlcStatus) -> InvoiceStatus {
    match s {
        HtlcStatus::Pending => InvoiceStatus::Pending,
        HtlcStatus::Succeeded => InvoiceStatus::Succeeded,
        HtlcStatus::Failed => InvoiceStatus::Failed,
    }
}

// ---------------------------------------------------------------------------
// Asset transfers
// ---------------------------------------------------------------------------

/// Is the transfer awaiting confirmations it now has? Such a transfer
/// settles at the next refresh.
pub open spec fn settle_ready(t: Transfer, h: u64) -> bool {
    t.status == TransferStatus::WaitingConfirmations && (t.min_confirmations == 0
        || confirmations(h, t.anchor_height) >= t.min_confirmations)
}

/// Transfer records of `post` lawfully extend `pre`: terminal records
/// are untouched, and records change only along the state machine.
pub open spec fn transfers_monotonic(pre: Seq<Transfer>, post: Seq<Transfer>) -> bool {
    &&& pre.len() <= post.len()
    &&& forall|i: int|
        0 <= i < pre.len() && transfer_terminal((#[trigger] pre[i]).status) ==> transfer_like(
            pre[i],
            post[i],
        )
}

impl Node {
    /// Issues an asset-transfer invoice: a fresh blinded receiving
    /// commitment and a `Negotiated` inbound transfer awaiting the
    /// counterparty's consignment. `min_confirmations` of zero accepts
    /// an unconfirmed transfer.
    pub fn rgb_invoice(&mut self, min_confirmations: u32, asset_id: Option<u64>) -> (r: Result<
        Vec<u8>,
        NodeError,
    >)
        requires
            old(self).wf(),
        ensures
            final(self).wf(),
            r is Err ==> Node::unchanged(*old(self), *final(self)),
            !old(self).unlocked ==> r == Err::<Vec<u8>, NodeError>(NodeError::Locked),
            r is Ok <==> {
                &&& old(self).unlocked
                &&& (asset_id matches Some(a) ==> old(self).asset_registered(a))
                &&& old(self).next_blinded < u64::MAX
            },
            r matches Ok(v) ==> {
                &&& v@ == encode_rgb_spec(
                    RgbInvoiceData {
                        blinded: old(self).next_blinded,
                        min_confirmations,
                        asset_id,
                    },
                )
                &&& final(self).transfers@.len() == old(self).transfers@.len() + 1
                &&& {
                    let nt = final(self).transfers@.last();
                    &&& !nt.outbound
                    &&& nt.asset_id == asset_id
                    &&& nt.amount == 0
                    &&& nt.min_confirmations == min_confirmations
                    &&& nt.blinded == old(self).next_blinded
                    &&& nt.status == TransferStatus::Negotiated
                }
                &&& (forall|b: u64|
                    {
                        &&& final(self).spendable_of(b) == old(self).spendable_of(b)
                        &&& final(self).in_transit_of(b) == old(self).in_transit_of(b)
                    })
                &&& final(self).channels@ == old(self).channels@
                &&& final(self).utxos@ == old(self).utxos@
                &&& final(self).payments@ == old(self).payments@
                &&& final(self).assets@ == old(self).assets@
                &&& Node::same_control(*old(self), *final(self))
                &&& final(self).next_blinded == old(self).next_blinded + 1
                &&& final(self).next_outpoint == old(self).next_outpoint
                &&& final(self).next_channel_id == old(self).next_channel_id
                &&& final(self).next_payment_hash == old(self).next_payment_hash
                &&& final(self).next_txid == old(self).next_txid
            },
            payments_monotonic(old(self).payments@, final(self).payments@),
            transfers_monotonic(old(self).transfers@, final(self).transfers@),
    {
        if !self.unlocked {
            return Err(NodeError::Locked);
        }
        if let Some(a) = asset_id {
            match self.find_asset(a) {
                None => {
                    return Err(NodeError::UnknownAsset);
                },
                Some(_) => {},
            }
        }
        if self.next_blinded == u64::MAX {
            return Err(NodeError::Internal);
        }
        let blinded = self.next_blinded;
        self.next_blinded = blinded + 1;
        let d = RgbInvoiceData { blinded, min_confirmations, asset_id };
        let out = encode_rgb_invoice(&d);
        let ghost pret = self.transfers@;
        let nt = Transfer {
            outbound: false,
            donation: false,
            asset_id,
            amount: 0,
            min_confirmations,
            blinded,
            transport_endpoints: Vec::new(),
            anchor_height: 0,
            status: TransferStatus::Negotiated,
        };
        self.transfers.push(nt);
        proof {
            assert forall|b: u64| sum_by(self.transfers@, #[trigger] transit_f(b)) == sum_by(
                pret,
                transit_f(b),
            ) by {
                lemma_sum_by_push(pret, transit_f(b), self.transfers@.last());
            }
            assert forall|k: int| 0 <= k < self.assets@.len() implies #[trigger] self.account_ok(
                k,
            ) by {
                assert(old(self).account_ok(k));
            }
            assert(self.wf());
        }
        Ok(out)
    }

    /// Starts an on-chain asset send to a blinded receiving commitment:
    /// consumes `amount` spendable units, which sit in transit on a
    /// `Negotiated` outbound transfer until a refresh settles or fails
    /// it. Needs at least one transport endpoint for the consignment.
    pub fn send_asset(
        &mut self,
        asset_id: u64,
        amount: u64,
        blinded: u64,
        donation: bool,
        min_confirmations: u32,
        transport_endpoints: Vec<u64>,
    ) -> (r: Result<usize, NodeError>)
        requires
            old(self).wf(),
        ensures
            final(self).wf(),
            r is Err ==> Node::unchanged(*old(self), *final(self)),
            !old(self).unlocked ==> r == Err::<usize, NodeError>(NodeError::Locked),
            r is Ok <==> {
                &&& old(self).unlocked
                &&& transport_endpoints@.len() > 0
                &&& amount > 0
                &&& old(self).asset_registered(asset_id)
                &&& old(self).spendable_of(asset_id) >= amount
            },
            r matches Ok(ti) ==> {
                &&& ti == old(self).transfers@.len()
                &&& final(self).transfers@.len() == old(self).transfers@.len() + 1
                &&& {
                    let nt = final(self).transfers@.last();
                    &&& nt.outbound
                    &&& nt.donation == donation
                    &&& nt.asset_id == Some(asset_id)
                    &&& nt.amount == amount
                    &&& nt.min_confirmations == min_confirmations
                    &&& nt.blinded == blinded
                    &&& nt.transport_endpoints@ == transport_endpoints@
                    &&& nt.status == TransferStatus::Negotiated
                }
                &&& final(self).spendable_of(asset_id) == old(self).spendable_of(asset_id)
                    - amount
                &&& final(self).in_transit_of(asset_id) == old(self).in_transit_of(asset_id)
                    + amount
                &&& (forall|b: u64|
                    b != asset_id ==> {
                        &&& final(self).spendable_of(b) == old(self).spendable_of(b)
                        &&& final(self).in_transit_of(b) == old(self).in_transit_of(b)
                    })
                &&& final(self).channels@ == old(self).channels@
                &&& final(self).payments@ == old(self).payments@
                &&& final(self).assets@ == old(self).assets@
                &&& Node::same_control(*old(self), *final(self))
                &&& Node::same_counters(*old(self), *final(self))
            },
            payments_monotonic(old(self).payments@, final(self).payments@),
            transfers_monotonic(old(self).transfers@, final(self).transfers@),
    {
        if !self.unlocked {
            return Err(NodeError::Locked);
        }
        if transport_endpoints.len() == 0 {
            return Err(NodeError::InvalidTransportEndpoints);
        }
        if amount == 0 {
            return Err(NodeError::InvalidAmount);
        }
        match self.find_asset(asset_id) {
            None => {
                return Err(NodeError::UnknownAsset);
            },
            Some(_) => {},
        }
        proof {
            lemma_buckets_bounded(*self, asset_id);
        }
        let have = sum_spendable(&self.utxos, asset_id);
        if have < amount {
            return Err(NodeError::InsufficientAssets);
        }
        take_asset(&mut self.utxos, asset_id, amount);
        let ghost pret = self.transfers@;
        let ti = self.transfers.len();
        let nt = Transfer {
            outbound: true,
            donation,
            asset_id: Some(asset_id),
            amount,
            min_confirmations,
            blinded,
            transport_endpoints,
            anchor_height: 0,
            status: TransferStatus::Negotiated,
        };
        self.transfers.push(nt);
        proof {
            assert forall|b: u64| sum_by(self.transfers@, #[trigger] transit_f(b)) == sum_by(
                pret,
                transit_f(b),
            ) + (if b == asset_id {
                amount as int
            } else {
                0
            }) by {
                lemma_sum_by_push(pret, transit_f(b), self.transfers@.last());
            }
            assert forall|k: int| 0 <= k < self.assets@.len() implies #[trigger] self.account_ok(
                k,
            ) by {
                assert(old(self).account_ok(k));
            }
            assert forall|j: int|
                0 <= j < self.utxos@.len() implies ((#[trigger] self.utxos@[j]).alloc matches Some(
                al,
            ) ==> self.asset_registered(al.asset_id)) by {
                if let Some(al) = self.utxos@[j].alloc {
                    let k = choose|k: int|
                        0 <= k < old(self).utxos@.len() && ((#[trigger] old(self).utxos@[k]).alloc
                            matches Some(al2) && al2.asset_id == al.asset_id);
                    assert(old(self).asset_registered(al.asset_id));
                }
            }
            assert(self.wf());
        }
        Ok(ti)
    }
}

/// The identity fields of every already-known asset survive (new assets
/// may be learned; `off_view` may move either way).
pub open spec fn assets_extend(a: Seq<Asset>, b: Seq<Asset>) -> bool {
    &&& a.len() <= b.len()
    &&& forall|i: int|
        0 <= i < a.len() ==> {
            &&& (#[trigger] b[i]).asset_id == a[i].asset_id
            &&& b[i].ticker@ == a[i].ticker@
            &&& b[i].name@ == a[i].name@
            &&& b[i].precision == a[i].precision
            &&& b[i].issued_supply == a[i].issued_supply
        }
}

impl Node {
    /// Does the reported update fit the transfer's position in the state
    /// machine (and, for an acceptance, the ledger)?
    pub open spec fn update_fits(self, t: Transfer, u: TransferUpdate) -> bool {
        match u {
            TransferUpdate::Dispatched => t.status == TransferStatus::Negotiated,
            TransferUpdate::EndpointsUnreachable => (t.status == TransferStatus::Negotiated
                || t.status == TransferStatus::WaitingCounterparty) && self.next_outpoint
                < u64::MAX,
            TransferUpdate::Accepted { anchor_height, asset_id, amount, issued_supply } => {
                &&& t.status == TransferStatus::WaitingCounterparty
                &&& anchor_height <= MAX_HEIGHT
                &&& amount > 0
                &&& amount <= issued_supply
                &&& (t.outbound ==> t.asset_id == Some(asset_id) && t.amount == amount)
                &&& (!t.outbound ==> (t.asset_id is None || t.asset_id == Some(asset_id)))
                &&& (!self.asset_registered(asset_id) ==> self.assets@.len() < usize::MAX)
            },
            TransferUpdate::InvalidConsignment => (t.status
                == TransferStatus::WaitingCounterparty || t.status
                == TransferStatus::WaitingConfirmations) && self.next_outpoint < u64::MAX,
            TransferUpdate::HorizonElapsed => t.status == TransferStatus::WaitingConfirmations
                && self.next_outpoint < u64::MAX,
        }
    }

    /// The record after the update, status-wise.
    pub open spec fn update_applies(t0: Transfer, t1: Transfer, u: TransferUpdate) -> bool {
        match u {
            TransferUpdate::Dispatched => t1.status == TransferStatus::WaitingCounterparty
                && t1.asset_id == t0.asset_id && t1.amount == t0.amount,
            TransferUpdate::EndpointsUnreachable => t1.status == TransferStatus::Failed,
            TransferUpdate::Accepted { anchor_height, asset_id, amount, .. } => {
                &&& t1.status == TransferStatus::WaitingConfirmations
                &&& t1.anchor_height == anchor_height
                &&& t1.asset_id == Some(asset_id)
                &&& t1.amount == amount
            },
            TransferUpdate::InvalidConsignment => t1.status == TransferStatus::Failed,
            TransferUpdate::HorizonElapsed => t1.status == TransferStatus::Failed,
        }
    }

    /// Applies one reported update to one transfer. A failing outbound
    /// transfer returns its units to the spendable balance; an
    /// acceptance records the anchor and, for an inbound transfer, the
    /// asset and amount the consignment names, learning a new asset's
    /// existence if need be. An update that does not fit the transfer's
    /// state is refused as an invalid consignment and changes nothing.
    pub fn apply_transfer_update(&mut self, ev: RefreshEvent) -> (r: Result<(), NodeError>)
        requires
            old(self).wf(),
        ensures
            final(self).wf(),
            r is Err ==> Node::unchanged(*old(self), *final(self)),
            r is Ok <==> ev.transfer_idx < old(self).transfers@.len() && old(self).update_fits(
                old(self).transfers@[ev.transfer_idx as int],
                ev.update,
            ),
            r is Ok ==> {
                &&& final(self).transfers@.len() == old(self).transfers@.len()
                &&& Node::update_applies(
                    old(self).transfers@[ev.transfer_idx as int],
                    final(self).transfers@[ev.transfer_idx as int],
                    ev.update,
                )
                &&& (forall|i: int|
                    0 <= i < old(self).transfers@.len() && i != ev.transfer_idx
                        ==> transfer_like(
                        old(self).transfers@[i],
                        #[trigger] final(self).transfers@[i],
                    ))
                &&& final(self).channels@ == old(self).channels@
                &&& final(self).payments@ == old(self).payments@
                &&& assets_extend(old(self).assets@, final(self).assets@)
            },
            payments_monotonic(old(self).payments@, final(self).payments@),
            transfers_monotonic(old(self).transfers@, final(self).transfers@),
            final(self).height == old(self).height,
            final(self).unlocked == old(self).unlocked,
            final(self).peers@ == old(self).peers@,
            final(self).node_id == old(self).node_id,
            final(self).key == old(self).key,
            final(self).next_outpoint >= old(self).next_outpoint,
            final(self).next_channel_id == old(self).next_channel_id,
            final(self).next_payment_hash == old(self).next_payment_hash,
            final(self).next_blinded == old(self).next_blinded,
            final(self).next_txid == old(self).next_txid,
    {
        let idx = ev.transfer_idx;
        if idx >= self.transfers.len() {
            return Err(NodeError::TransferNotFound);
        }
        let t = self.transfers[idx].clone();
        let ghost t0 = self.transfers@[idx as int];
        let ghost pret = self.transfers@;
        match ev.update {
            TransferUpdate::Dispatched => {
                match t.status {
                    TransferStatus::Negotiated => {},
                    _ => {
                        return Err(NodeError::InvalidConsignment);
                    },
                }
                let t1 = Transfer { status: TransferStatus::WaitingCounterparty, ..t };
                self.transfers.set(idx, t1);
                proof {
                    assert forall|k: int|
                        0 <= k < self.assets@.len() implies #[trigger] self.account_ok(k) by {
                        assert(old(self).account_ok(k));
                        lemma_sum_by_update(
                            pret,
                            transit_f(self.assets@[k].asset_id),
                            idx as int,
                            self.transfers@[idx as int],
                        );
                    }
                    assert(self.wf());
                }
                Ok(())
            },
            TransferUpdate::EndpointsUnreachable => {
                let fits = match t.status {
                    TransferStatus::Negotiated => true,
                    TransferStatus::WaitingCounterparty => true,
                    _ => false,
                };
                if !fits || self.next_outpoint == u64::MAX {
                    return Err(NodeError::InvalidConsignment);
                }
                self.fail_transfer(idx)
            },
            TransferUpdate::InvalidConsignment => {
                let fits = match t.status {
                    TransferStatus::WaitingCounterparty => true,
                    TransferStatus::WaitingConfirmations => true,
                    _ => false,
                };
                if !fits || self.next_outpoint == u64::MAX {
                    return Err(NodeError::InvalidConsignment);
                }
                self.fail_transfer(idx)
            },
            TransferUpdate::HorizonElapsed => {
                let fits = match t.status {
                    TransferStatus::WaitingConfirmations => true,
                    _ => false,
                };
                if !fits || self.next_outpoint == u64::MAX {
                    return Err(NodeError::InvalidConsignment);
                }
                self.fail_transfer(idx)
            },
            TransferUpdate::Accepted { anchor_height, asset_id, amount, issued_supply } => {
                let fits = match t.status {
                    TransferStatus::WaitingCounterparty => true,
                    _ => false,
                };
                let fits = fits && anchor_height <= MAX_HEIGHT && amount > 0 && amount
                    <= issued_supply;
                let fits = fits && if t.outbound {
                    match t.asset_id {
                        Some(a) => a == asset_id && t.amount == amount,
                        None => false,
                    }
                } else {
                    match t.asset_id {
                        Some(a) => a == asset_id,
                        None => true,
                    }
                };
                if !fits {
                    return Err(NodeError::InvalidConsignment);
                }
                let known = self.find_asset(asset_id);
                if known.is_none() {
                    if self.assets.len() == usize::MAX {
                        return Err(NodeError::InvalidConsignment);
                    }
                    let ghost prea = self.assets@;
                    let learned = Asset {
                        asset_id,
                        ticker: Vec::new(),
                        name: Vec::new(),
                        precision: 0,
                        issued_supply,
                        off_view: issued_supply,
                    };
                    self.assets.push(learned);
                    proof {
                        assert(self.assets@[self.assets@.len() - 1].asset_id == asset_id);
                        assert(self.asset_registered(asset_id));
                        assert forall|j: int|
                            0 <= j < self.utxos@.len() implies spendable_f(asset_id)(
                            #[trigger] self.utxos@[j],
                        ) == 0 by {
                            if let Some(al) = self.utxos@[j].alloc {
                                assert(old(self).asset_registered(al.asset_id));
                            }
                        }
                        lemma_sum_by_zero(self.utxos@, spendable_f(asset_id));
                        assert(forall|j: int|
                            0 <= j < self.channels@.len() ==> outbound_f(asset_id)(
                                #[trigger] self.channels@[j],
                            ) == 0);
                        lemma_sum_by_zero(self.channels@, outbound_f(asset_id));
                        assert(forall|j: int|
                            0 <= j < self.channels@.len() ==> inbound_f(asset_id)(
                                #[trigger] self.channels@[j],
                            ) == 0);
                        lemma_sum_by_zero(self.channels@, inbound_f(asset_id));
                        assert(forall|j: int|
                            0 <= j < self.transfers@.len() ==> transit_f(asset_id)(
                                #[trigger] self.transfers@[j],
                            ) == 0);
                        lemma_sum_by_zero(self.transfers@, transit_f(asset_id));
                        assert forall|a2: u64|
                            old(self).asset_registered(a2) implies self.asset_registered(a2) by {
                            let w = choose|w: int|
                                0 <= w < old(self).assets@.len() && old(self).assets@[w].asset_id
                                    == a2;
                            assert(self.assets@[w].asset_id == a2);
                        }
                        assert forall|i2: int, j2: int|
                            0 <= i2 < self.assets@.len() && 0 <= j2 < self.assets@.len() && i2
                                != j2 implies (#[trigger] self.assets@[i2]).asset_id != (
                            #[trigger] self.assets@[j2]).asset_id by {
                            if i2 < self.assets@.len() - 1 && j2 < self.assets@.len() - 1 {
                                assert(prea[i2] == self.assets@[i2]);
                            }
                        }
                        assert forall|k: int|
                            0 <= k < self.assets@.len() implies #[trigger] self.account_ok(k) by {
                            if k < self.assets@.len() - 1 {
                                assert(old(self).account_ok(k));
                            }
                        }
                        assert(self.wf());
                    }
                }
                let t1 = Transfer {
                    status: TransferStatus::WaitingConfirmations,
                    anchor_height,
                    asset_id: Some(asset_id),
                    amount,
                    ..t
                };
                let ghost mid = *self;
                self.transfers.set(idx, t1);
                proof {
                    assert(self.transfers@[idx as int] == t1);
                    assert(transfer_like(t0, mid.transfers@[idx as int]));
                    assert forall|b: u64| sum_by(self.transfers@, #[trigger] transit_f(b))
                        == sum_by(mid.transfers@, transit_f(b)) by {
                        lemma_sum_by_update(mid.transfers@, transit_f(b), idx as int, t1);
                        assert(transit_contrib(mid.transfers@[idx as int], b) == transit_contrib(
                            t1,
                            b,
                        ));
                    }
                    assert forall|k: int|
                        0 <= k < self.assets@.len() implies #[trigger] self.account_ok(k) by {
                        assert(mid.account_ok(k));
                    }
                    assert(self.wf());
                }
                Ok(())
            },
        }
    }

    /// Marks the transfer failed; a failing outbound transfer's units
    /// come back to the spendable balance as a fresh allocation.
    fn fail_transfer(&mut self, idx: usize) -> (r: Result<(), NodeError>)
        requires
            old(self).wf(),
            idx < old(self).transfers@.len(),
            !transfer_terminal(old(self).transfers@[idx as int].status),
            old(self).next_outpoint < u64::MAX,
        ensures
            final(self).wf(),
            r is Ok,
            final(self).transfers@.len() == old(self).transfers@.len(),
            final(self).transfers@[idx as int].status == TransferStatus::Failed,
            forall|i: int|
                0 <= i < old(self).transfers@.len() && i != idx ==> transfer_like(
                    old(self).transfers@[i],
                    #[trigger] final(self).transfers@[i],
                ),
            final(self).channels@ == old(self).channels@,
            final(self).payments@ == old(self).payments@,
            assets_extend(old(self).assets@, final(self).assets@),
            payments_monotonic(old(self).payments@, final(self).payments@),
            transfers_monotonic(old(self).transfers@, final(self).transfers@),
            final(self).height == old(self).height,
            final(self).unlocked == old(self).unlocked,
            final(self).peers@ == old(self).peers@,
            final(self).node_id == old(self).node_id,
            final(self).key == old(self).key,
            final(self).next_outpoint >= old(self).next_outpoint,
            final(self).next_channel_id == old(self).next_channel_id,
            final(self).next_payment_hash == old(self).next_payment_hash,
            final(self).next_blinded == old(self).next_blinded,
            final(self).next_txid == old(self).next_txid,
    {
        let t = self.transfers[idx].clone();
        let ghost pret = self.transfers@;
        let refund = t.outbound && t.amount > 0;
        let t1 = Transfer { status: TransferStatus::Failed, ..t };
        self.transfers.set(idx, t1);
        if refund {
            let a = match t.asset_id {
                Some(a) => a,
                None => {
                    proof {
                        assert(false);
                    }
                    return Err(NodeError::Internal);
                },
            };
            let ghost preu = self.utxos@;
            let u = Utxo {
                outpoint: self.next_outpoint,
                amount_sat: 0,
                alloc: Some(Alloc { asset_id: a, amount: t.amount }),
            };
            self.utxos.push(u);
            self.next_outpoint = self.next_outpoint + 1;
            proof {
                lemma_sum_by_push(preu, sat_f(), u);
                lemma_sum_by_push(preu, uncolored_sat_f(), u);
                assert forall|b: u64| sum_by(self.utxos@, #[trigger] spendable_f(b)) == sum_by(
                    preu,
                    spendable_f(b),
                ) + (if b == a {
                    t.amount as int
                } else {
                    0
                }) by {
                    lemma_sum_by_push(preu, spendable_f(b), u);
                }
                assert forall|b: u64| sum_by(self.transfers@, #[trigger] transit_f(b)) == sum_by(
                    pret,
                    transit_f(b),
                ) - (if b == a {
                    t.amount as int
                } else {
                    0
                }) by {
                    lemma_sum_by_update(pret, transit_f(b), idx as int, t1);
                    assert(pret[idx as int].outbound);
                    assert(pret[idx as int].asset_id == Some(a));
                    assert(pret[idx as int].amount == t.amount);
                }
                assert forall|k: int|
                    0 <= k < self.assets@.len() implies #[trigger] self.account_ok(k) by {
                    assert(old(self).account_ok(k));
                }
                assert(old(self).asset_registered(a));
                assert(self.wf());
            }
        } else {
            proof {
                assert forall|b: u64| sum_by(self.transfers@, #[trigger] transit_f(b)) == sum_by(
                    pret,
                    transit_f(b),
                ) by {
                    lemma_sum_by_update(pret, transit_f(b), idx as int, t1);
                }
                assert forall|k: int|
                    0 <= k < self.assets@.len() implies #[trigger] self.account_ok(k) by {
                    assert(old(self).account_ok(k));
                }
                assert(self.wf());
            }
        }
        Ok(())
    }
}

/// Lawful transfer extension composes.
proof fn lemma_transfers_monotonic_trans(a: Seq<Transfer>, b: Seq<Transfer>, c: Seq<Transfer>)
    requires
        transfers_monotonic(a, b),
        transfers_monotonic(b, c),
    ensures
        transfers_monotonic(a, c),
{
    assert forall|i: int|
        0 <= i < a.len() && transfer_terminal((#[trigger] a[i]).status) implies transfer_like(
        a[i],
        c[i],
    ) by {
        assert(transfer_like(a[i], b[i]));
        assert(transfer_terminal(b[i].status));
        assert(transfer_like(b[i], c[i]));
    }
}

impl Node {
    /// Settles the transfer at `idx`, whose confirmations have reached
    /// its requirement: an outbound transfer's units leave this node's
    /// view for the recipient; an inbound transfer's units arrive as a
    /// fresh allocation out of the units that were outside the view. An
    /// inbound consignment naming more units than are outside the view
    /// is inconsistent and fails the transfer instead.
    fn settle_transfer(&mut self, idx: usize) -> (r: Result<(), NodeError>)
        requires
            old(self).wf(),
            idx < old(self).transfers@.len(),
            old(self).transfers@[idx as int].status == TransferStatus::WaitingConfirmations,
            old(self).next_outpoint < u64::MAX,
        ensures
            final(self).wf(),
            r is Ok,
            final(self).transfers@.len() == old(self).transfers@.len(),
            transfer_terminal(final(self).transfers@[idx as int].status),
            forall|i: int|
                0 <= i < old(self).transfers@.len() && i != idx ==> transfer_like(
                    old(self).transfers@[i],
                    #[trigger] final(self).transfers@[i],
                ),
            final(self).channels@ == old(self).channels@,
            final(self).payments@ == old(self).payments@,
            assets_extend(old(self).assets@, final(self).assets@),
            payments_monotonic(old(self).payments@, final(self).payments@),
            transfers_monotonic(old(self).transfers@, final(self).transfers@),
            final(self).height == old(self).height,
            final(self).unlocked == old(self).unlocked,
            final(self).peers@ == old(self).peers@,
            final(self).node_id == old(self).node_id,
            final(self).key == old(self).key,
            final(self).next_outpoint >= old(self).next_outpoint,
            final(self).next_channel_id == old(self).next_channel_id,
            final(self).next_payment_hash == old(self).next_payment_hash,
            final(self).next_blinded == old(self).next_blinded,
            final(self).next_txid == old(self).next_txid,
    {
        let t = self.transfers[idx].clone();
        let ghost pret = self.transfers@;
        let a = match t.asset_id {
            Some(a) => a,
            None => {
                return self.fail_transfer(idx);
            },
        };
        let ai = match self.find_asset(a) {
            Some(ai) => ai,
            None => {
                return self.fail_transfer(idx);
            },
        };
        if t.outbound {
            proof {
                lemma_buckets_bounded(*self, a);
                assert(forall|j: int|
                    0 <= j < self.transfers@.len() ==> transit_f(a)(#[trigger] self.transfers@[j])
                        >= 0);
                lemma_sum_by_element_le(self.transfers@, transit_f(a), idx as int);
                lemma_asset_idx_at(*self, a, ai as int);
            }
            let rec = &self.assets[ai];
            let grown = Asset {
                asset_id: rec.asset_id,
                ticker: copy_bytes(&rec.ticker),
                name: copy_bytes(&rec.name),
                precision: rec.precision,
                issued_supply: rec.issued_supply,
                off_view: rec.off_view + t.amount,
            };
            let ghost prea = self.assets@;
            self.assets.set(ai, grown);
            let t1 = Transfer { status: TransferStatus::Settled, ..t };
            self.transfers.set(idx, t1);
            proof {
                assert forall|b: u64| sum_by(self.transfers@, #[trigger] transit_f(b)) == sum_by(
                    pret,
                    transit_f(b),
                ) - (if b == a {
                    t.amount as int
                } else {
                    0
                }) by {
                    lemma_sum_by_update(pret, transit_f(b), idx as int, t1);
                    assert(pret[idx as int].outbound);
                    assert(pret[idx as int].asset_id == Some(a));
                    assert(pret[idx as int].amount == t.amount);
                }
                assert forall|k: int|
                    0 <= k < self.assets@.len() implies #[trigger] self.account_ok(k) by {
                    assert(old(self).account_ok(k));
                    if k != ai {
                        assert(self.assets@[k] == prea[k]);
                        assert(self.assets@[k].asset_id != a);
                    }
                }
                assert forall|a2: u64|
                    old(self).asset_registered(a2) implies self.asset_registered(a2) by {
                    let w = choose|w: int|
                        0 <= w < old(self).assets@.len() && old(self).assets@[w].asset_id == a2;
                    assert(self.assets@[w].asset_id == a2);
                }
                assert(self.wf());
            }
            Ok(())
        } else {
            let rec_off = self.assets[ai].off_view;
            if rec_off < t.amount {
                return self.fail_transfer(idx);
            }
            proof {
                lemma_asset_idx_at(*self, a, ai as int);
            }
            let rec = &self.assets[ai];
            let shrunk = Asset {
                asset_id: rec.asset_id,
                ticker: copy_bytes(&rec.ticker),
                name: copy_bytes(&rec.name),
                precision: rec.precision,
                issued_supply: rec.issued_supply,
                off_view: rec.off_view - t.amount,
            };
            let ghost prea = self.assets@;
            self.assets.set(ai, shrunk);
            let t1 = Transfer { status: TransferStatus::Settled, ..t };
            self.transfers.set(idx, t1);
            let ghost preu = self.utxos@;
            if t.amount > 0 {
                let u = Utxo {
                    outpoint: self.next_outpoint,
                    amount_sat: 0,
                    alloc: Some(Alloc { asset_id: a, amount: t.amount }),
                };
                self.utxos.push(u);
                self.next_outpoint = self.next_outpoint + 1;
                proof {
                    lemma_sum_by_push(preu, sat_f(), u);
                    lemma_sum_by_push(preu, uncolored_sat_f(), u);
                    assert forall|b: u64| sum_by(self.utxos@, #[trigger] spendable_f(b))
                        == sum_by(preu, spendable_f(b)) + (if b == a {
                        t.amount as int
                    } else {
                        0
                    }) by {
                        lemma_sum_by_push(preu, spendable_f(b), u);
                    }
                }
            } else {
                proof {
                    assert forall|b: u64| sum_by(self.utxos@, #[trigger] spendable_f(b))
                        == sum_by(preu, spendable_f(b)) + (if b == a {
                        t.amount as int
                    } else {
                        0
                    }) by {
                    }
                }
            }
            proof {
                assert forall|b: u64| sum_by(self.transfers@, #[trigger] transit_f(b)) == sum_by(
                    pret,
                    transit_f(b),
                ) by {
                    lemma_sum_by_update(pret, transit_f(b), idx as int, t1);
                    assert(transit_contrib(pret[idx as int], b) == 0);
                    assert(transit_contrib(t1, b) == 0);
                }
                assert forall|k: int|
                    0 <= k < self.assets@.len() implies #[trigger] self.account_ok(k) by {
                    assert(old(self).account_ok(k));
                    if k != ai {
                        assert(self.assets@[k] == prea[k]);
                        assert(self.assets@[k].asset_id != a);
                    }
                }
                assert forall|a2: u64|
                    old(self).asset_registered(a2) implies self.asset_registered(a2) by {
                    let w = choose|w: int|
                        0 <= w < old(self).assets@.len() && old(self).assets@[w].asset_id == a2;
                    assert(self.assets@[w].asset_id == a2);
                }
                assert(self.wf());
            }
            Ok(())
        }
    }

    /// Polls results of every configured transport endpoint and the
    /// chain observer, as handed in by the caller, and advances every
    /// non-terminal transfer whose preconditions are now met; then
    /// settles every accepted transfer whose anchor has reached its
    /// required confirmations at the node's height. No transfer advances
    /// without this call. Events that do not fit are skipped.
    pub fn refresh_transfers(&mut self, events: &Vec<RefreshEvent>) -> (r: Result<(), NodeError>)
        requires
            old(self).wf(),
        ensures
            final(self).wf(),
            r is Err ==> Node::unchanged(*old(self), *final(self)),
            r is Ok <==> old(self).unlocked,
            !old(self).unlocked ==> r == Err::<(), NodeError>(NodeError::Locked),
            final(self).payments@ == old(self).payments@,
            final(self).channels@ == old(self).channels@,
            final(self).transfers@.len() == old(self).transfers@.len(),
            assets_extend(old(self).assets@, final(self).assets@),
            payments_monotonic(old(self).payments@, final(self).payments@),
            transfers_monotonic(old(self).transfers@, final(self).transfers@),
            final(self).unlocked == old(self).unlocked,
            final(self).height == old(self).height,
            final(self).peers@ == old(self).peers@,
            final(self).node_id == old(self).node_id,
            final(self).key == old(self).key,
            final(self).next_outpoint >= old(self).next_outpoint,
            final(self).next_channel_id == old(self).next_channel_id,
            final(self).next_payment_hash == old(self).next_payment_hash,
            final(self).next_blinded == old(self).next_blinded,
            final(self).next_txid == old(self).next_txid,
            r is Ok ==> forall|j: int|
                0 <= j < final(self).transfers@.len() && settle_ready(
                    #[trigger] final(self).transfers@[j],
                    final(self).height,
                ) ==> final(self).next_outpoint == u64::MAX,
            r is Ok && events@.len() == 1 && events@[0].transfer_idx < old(
                self,
            ).transfers@.len() && old(self).update_fits(
                old(self).transfers@[events@[0].transfer_idx as int],
                events@[0].update,
            ) ==> (Node::update_applies(
                old(self).transfers@[events@[0].transfer_idx as int],
                final(self).transfers@[events@[0].transfer_idx as int],
                events@[0].update,
            ) || transfer_terminal(
                final(self).transfers@[events@[0].transfer_idx as int].status,
            )),
    {
        if !self.unlocked {
            return Err(NodeError::Locked);
        }
        let mut k: usize = 0;
        while k < events.len()
            invariant
                self.wf(),
                self.payments@ == old(self).payments@,
                self.channels@ == old(self).channels@,
                assets_extend(old(self).assets@, self.assets@),
                transfers_monotonic(old(self).transfers@, self.transfers@),
                self.transfers@.len() == old(self).transfers@.len(),
                self.height == old(self).height,
                self.unlocked == old(self).unlocked,
                self.peers@ == old(self).peers@,
                self.node_id == old(self).node_id,
                self.key == old(self).key,
                self.next_outpoint >= old(self).next_outpoint,
                self.next_channel_id == old(self).next_channel_id,
                self.next_payment_hash == old(self).next_payment_hash,
                self.next_blinded == old(self).next_blinded,
                self.next_txid == old(self).next_txid,
                k == 0 ==> *self == *old(self),
                events@.len() == 1 && k >= 1 && events@[0].transfer_idx < old(
                    self,
                ).transfers@.len() && old(self).update_fits(
                    old(self).transfers@[events@[0].transfer_idx as int],
                    events@[0].update,
                ) ==> (Node::update_applies(
                    old(self).transfers@[events@[0].transfer_idx as int],
                    self.transfers@[events@[0].transfer_idx as int],
                    events@[0].update,
                ) || transfer_terminal(
                    self.transfers@[events@[0].transfer_idx as int].status,
                )),
            decreases events@.len() - k,
        {
            let ghost mid = *self;
            let outcome = self.apply_transfer_update(events[k]);
            proof {
                if outcome is Ok {
                    assert(assets_extend(mid.assets@, self.assets@));
                }
                lemma_assets_extend_trans(old(self).assets@, mid.assets@, self.assets@);
                lemma_transfers_monotonic_trans(
                    old(self).transfers@,
                    mid.transfers@,
                    self.transfers@,
                );
            }
            k = k + 1;
        }
        let mut i: usize = 0;
        while i < self.transfers.len()
            invariant
                self.wf(),
                self.payments@ == old(self).payments@,
                self.channels@ == old(self).channels@,
                assets_extend(old(self).assets@, self.assets@),
                transfers_monotonic(old(self).transfers@, self.transfers@),
                self.transfers@.len() == old(self).transfers@.len(),
                self.height == old(self).height,
                self.unlocked == old(self).unlocked,
                self.peers@ == old(self).peers@,
                self.node_id == old(self).node_id,
                self.key == old(self).key,
                self.next_outpoint >= old(self).next_outpoint,
                self.next_channel_id == old(self).next_channel_id,
                self.next_payment_hash == old(self).next_payment_hash,
                self.next_blinded == old(self).next_blinded,
                self.next_txid == old(self).next_txid,
                forall|j: int|
                    0 <= j < i ==> !settle_ready(#[trigger] self.transfers@[j], self.height)
                        || self.next_outpoint == u64::MAX,
                events@.len() == 1 && events@[0].transfer_idx < old(self).transfers@.len()
                    && old(self).update_fits(
                    old(self).transfers@[events@[0].transfer_idx as int],
                    events@[0].update,
                ) ==> (Node::update_applies(
                    old(self).transfers@[events@[0].transfer_idx as int],
                    self.transfers@[events@[0].transfer_idx as int],
                    events@[0].update,
                ) || transfer_terminal(
                    self.transfers@[events@[0].transfer_idx as int].status,
                )),
            decreases self.transfers@.len() - i,
        {
            let t = &self.transfers[i];
            let waiting = match t.status {
                TransferStatus::WaitingConfirmations => true,
                _ => false,
            };
            let deep = waiting && (t.min_confirmations == 0 || (self.height >= t.anchor_height
                && self.height - t.anchor_height >= t.min_confirmations as u64 - 1));
            if deep && self.next_outpoint < u64::MAX {
                let ghost mid = *self;
                let outcome = self.settle_transfer(i);
                proof {
                    lemma_assets_extend_trans(old(self).assets@, mid.assets@, self.assets@);
                    lemma_transfers_monotonic_trans(
                        old(self).transfers@,
                        mid.transfers@,
                        self.transfers@,
                    );
                }
            }
            i = i + 1;
        }
        Ok(())
    }
}

/// Asset extension composes.
proof fn lemma_assets_extend_trans(a: Seq<Asset>, b: Seq<Asset>, c: Seq<Asset>)
    requires
        assets_extend(a, b),
        assets_extend(b, c),
    ensures
        assets_extend(a, c),
{
}

/// With pairwise distinct asset identifiers, the found index of an asset
/// is the chosen one.
proof fn lemma_asset_idx_at(n: Node, a: u64, at: int)
    requires
        n.wf(),
        0 <= at < n.assets@.len(),
        n.assets@[at].asset_id == a,
    ensures
        n.asset_idx_of(a) == at,
{
    assert(n.asset_registered(a));
    let c = n.asset_idx_of(a);
    assert(0 <= c < n.assets@.len() && n.assets@[c].asset_id == a);
}

/// Conservation: for every asset all of whose units are in this node's
/// view, `spendable + offchain_outbound + offchain_inbound + in_transit`
/// equals the issued supply — and since every operation preserves
/// well-formedness, this holds after every settled operation.
pub proof fn lemma_asset_conservation(n: Node, asset_id: u64)
    requires
        n.wf(),
        n.asset_registered(asset_id),
        n.off_view_of(asset_id) == 0,
    ensures
        n.spendable_of(asset_id) + n.offchain_outbound_of(asset_id) + n.offchain_inbound_of(
            asset_id,
        ) + n.in_transit_of(asset_id) == n.issued_supply_of(asset_id),
{
    lemma_buckets_bounded(n, asset_id);
}

/// The summary reported for the node itself.
#[derive(Clone, Copy, Debug, PartialEq, Eq, Structural)]
pub struct NodeInfoResponse {
    /// This node's identity.
    pub node_id: u64,
    /// How many channels are in the active set.
    pub num_channels: usize,
    /// How many payments the history holds.
    pub num_payments: usize,
    /// The chain height last observed.
    pub height: u64,
}

impl Node {
    /// The node's identity and a summary of its state.
    pub fn node_info(&self) -> (r: NodeInfoResponse)
        ensures
            r.node_id == self.node_id,
            r.num_channels == self.channels@.len(),
            r.num_payments == self.payments@.len(),
            r.height == self.height,
    {
        NodeInfoResponse {
            node_id: self.node_id,
            num_channels: self.channels.len(),
            num_payments: self.payments.len(),
            height: self.height,
        }
    }
}

/// Close-depth policy: a cooperatively closed channel matures — and so
/// leaves the active set at the next `sync` — exactly at
/// `COOP_CLOSE_DEPTH` confirmations of its closing transaction, a
/// forcibly closed one exactly at `FORCE_CLOSE_DEPTH`.
pub proof fn lemma_close_depth_policy(c: Channel, h: u64)
    requires
        chan_closing(c),
    ensures
        c.state == ChannelState::ClosingCooperative ==> (chan_matured(c, h) <==> confirmations(
            h,
            c.close_height,
        ) >= COOP_CLOSE_DEPTH),
        c.state == ChannelState::ClosingForced ==> (chan_matured(c, h) <==> confirmations(
            h,
            c.close_height,
        ) >= FORCE_CLOSE_DEPTH),
{
}

impl Node {
    /// Records a channel the counterparty opened toward this node: the
    /// mirror image of `open_channel` on the acceptor's side. The
    /// counterparty holds `asset_amount` units of the asset on its side;
    /// this node's side starts empty but for any pushed millisatoshis.
    /// A previously unknown asset is learned from the consignment's
    /// issued supply.
    pub fn accept_channel(
        &mut self,
        peer: u64,
        capacity_sat: u64,
        push_msat: u64,
        asset_id: Option<u64>,
        asset_amount: u64,
        issued_supply: u64,
    ) -> (r: Result<u64, NodeError>)
        requires
            old(self).wf(),
        ensures
            final(self).wf(),
            r is Err ==> Node::unchanged(*old(self), *final(self)),
            !old(self).unlocked ==> r == Err::<u64, NodeError>(NodeError::Locked),
            r is Ok <==> {
                &&& old(self).unlocked
                &&& old(self).peers@.contains(peer)
                &&& MIN_CHANNEL_SAT <= capacity_sat <= MAX_CHANNEL_SAT
                &&& push_msat + CHANNEL_FEE_MSAT <= capacity_sat * 1000
                &&& old(self).sat_total() + old(self).cap_total() + capacity_sat <= MAX_BTC_SATS
                &&& (asset_id matches Some(a) ==> asset_amount > 0 && asset_amount
                    <= issued_supply && (old(self).asset_registered(a) ==> old(self).off_view_of(
                    a,
                ) >= asset_amount && old(self).issued_supply_of(a) == issued_supply) && (!old(
                    self,
                ).asset_registered(a) ==> old(self).assets@.len() < usize::MAX))
                &&& (asset_id is None ==> asset_amount == 0)
                &&& old(self).next_channel_id < u64::MAX
                &&& old(self).next_txid < u64::MAX
            },
            r matches Ok(cid) ==> {
                &&& cid == old(self).next_channel_id
                &&& final(self).channels@.len() == old(self).channels@.len() + 1
                &&& {
                    let c = final(self).channels@.last();
                    &&& c.channel_id == cid
                    &&& c.peer == peer
                    &&& c.capacity_sat == capacity_sat
                    &&& c.local_balance_msat == push_msat
                    &&& c.asset_id == asset_id
                    &&& c.asset_local == 0
                    &&& c.asset_remote == asset_amount
                    &&& c.state == ChannelState::Pending
                    &&& c.funding_height == old(self).height + 1
                }
                &&& (asset_id matches Some(a) ==> final(self).offchain_inbound_of(a) == old(
                    self,
                ).offchain_inbound_of(a) + asset_amount)
                &&& (forall|b: u64|
                    {
                        &&& final(self).spendable_of(b) == old(self).spendable_of(b)
                        &&& final(self).offchain_outbound_of(b) == old(
                            self,
                        ).offchain_outbound_of(b)
                        &&& final(self).in_transit_of(b) == old(self).in_transit_of(b)
                    })
                &&& final(self).utxos@ == old(self).utxos@
                &&& final(self).payments@ == old(self).payments@
                &&& final(self).transfers@ == old(self).transfers@
                &&& Node::same_control(*old(self), *final(self))
                &&& final(self).next_channel_id == old(self).next_channel_id + 1
                &&& final(self).next_txid == old(self).next_txid + 1
                &&& final(self).next_outpoint == old(self).next_outpoint
                &&& final(self).next_payment_hash == old(self).next_payment_hash
                &&& final(self).next_blinded == old(self).next_blinded
            },
            payments_monotonic(old(self).payments@, final(self).payments@),
    {
        if !self.unlocked {
            return Err(NodeError::Locked);
        }
        if !self.knows_peer(peer) {
            return Err(NodeError::PeerNotConnected);
        }
        if capacity_sat < MIN_CHANNEL_SAT || capacity_sat > MAX_CHANNEL_SAT {
            return Err(NodeError::InvalidAmount);
        }
        if capacity_sat * 1000 < CHANNEL_FEE_MSAT || push_msat > capacity_sat * 1000
            - CHANNEL_FEE_MSAT {
            return Err(NodeError::InvalidAmount);
        }
        if self.next_channel_id == u64::MAX || self.next_txid == u64::MAX {
            return Err(NodeError::Internal);
        }
        proof {
            lemma_sats_bounded(*self);
        }
        let sats = sum_sats(&self.utxos);
        let caps = sum_caps(&self.channels);
        if capacity_sat > MAX_BTC_SATS - sats || sats + capacity_sat > MAX_BTC_SATS - caps {
            return Err(NodeError::InsufficientBtc);
        }
        let ghost learned_new = asset_id is Some && !old(self).asset_registered(
            asset_id.unwrap(),
        );
        match asset_id {
            None => {
                if asset_amount != 0 {
                    return Err(NodeError::InvalidAmount);
                }
            },
            Some(a) => {
                if asset_amount == 0 || asset_amount > issued_supply {
                    return Err(NodeError::InvalidAmount);
                }
                match self.find_asset(a) {
                    Some(ai) => {
                        proof {
                            lemma_asset_idx_at(*self, a, ai as int);
                        }
                        let rec = &self.assets[ai];
                        if rec.issued_supply != issued_supply {
                            return Err(NodeError::InvalidAmount);
                        }
                        if rec.off_view < asset_amount {
                            return Err(NodeError::InvalidAmount);
                        }
                        let shrunk = Asset {
                            asset_id: rec.asset_id,
                            ticker: copy_bytes(&rec.ticker),
                            name: copy_bytes(&rec.name),
                            precision: rec.precision,
                            issued_supply: rec.issued_supply,
                            off_view: rec.off_view - asset_amount,
                        };
                        let ghost prea = self.assets@;
                        self.assets.set(ai, shrunk);
                        proof {
                            assert forall|k: int|
                                0 <= k < self.assets@.len() implies (
                            #[trigger] self.assets@[k]).asset_id == old(
                                self,
                            ).assets@[k].asset_id by {
                                if k != ai {
                                    assert(self.assets@[k] == prea[k]);
                                }
                            }
                            assert(self.assets@[ai as int].off_view == old(
                                self,
                            ).assets@[ai as int].off_view - asset_amount);
                        }
                    },
                    None => {
                        if self.assets.len() == usize::MAX {
                            return Err(NodeError::Internal);
                        }
                        let learned = Asset {
                            asset_id: a,
                            ticker: Vec::new(),
                            name: Vec::new(),
                            precision: 0,
                            issued_supply,
                            off_view: issued_supply - asset_amount,
                        };
                        self.assets.push(learned);
                        proof {
                            assert(self.assets@[self.assets@.len() - 1].asset_id == a);
                            assert(self.asset_registered(a));
                            assert forall|j2: int|
                                0 <= j2 < self.utxos@.len() implies spendable_f(a)(
                                #[trigger] self.utxos@[j2],
                            ) == 0 by {
                                if let Some(al) = self.utxos@[j2].alloc {
                                    assert(old(self).asset_registered(al.asset_id));
                                }
                            }
                            lemma_sum_by_zero(self.utxos@, spendable_f(a));
                            assert(forall|j2: int|
                                0 <= j2 < self.channels@.len() ==> outbound_f(a)(
                                    #[trigger] self.channels@[j2],
                                ) == 0);
                            lemma_sum_by_zero(self.channels@, outbound_f(a));
                            assert(forall|j2: int|
                                0 <= j2 < self.channels@.len() ==> inbound_f(a)(
                                    #[trigger] self.channels@[j2],
                                ) == 0);
                            lemma_sum_by_zero(self.channels@, inbound_f(a));
                            assert(forall|j2: int|
                                0 <= j2 < self.transfers@.len() ==> transit_f(a)(
                                    #[trigger] self.transfers@[j2],
                                ) == 0);
                            lemma_sum_by_zero(self.transfers@, transit_f(a));
                        }
                    },
                }
            },
        }
        let ghost mid = *self;
        proof {
            assert forall|a2: u64|
                old(self).asset_registered(a2) implies mid.asset_registered(a2) by {
                let w = choose|w: int|
                    0 <= w < old(self).assets@.len() && old(self).assets@[w].asset_id == a2;
                assert(mid.assets@[w].asset_id == a2);
            }
        }
        let cid = self.next_channel_id;
        let chan = Channel {
            channel_id: cid,
            peer,
            capacity_sat,
            local_balance_msat: push_msat,
            remote_balance_msat: capacity_sat * 1000 - push_msat - CHANNEL_FEE_MSAT,
            fees_msat: CHANNEL_FEE_MSAT,
            asset_id,
            asset_local: 0,
            asset_remote: asset_amount,
            funding_txid: self.next_txid,
            funding_height: self.height + 1,
            close_height: 0,
            state: ChannelState::Pending,
            public: true,
            with_anchors: true,
            fee_base_msat: 0,
            fee_proportional_millionths: 0,
        };
        self.channels.push(chan);
        self.next_channel_id = cid + 1;
        self.next_txid = self.next_txid + 1;
        proof {
            let fin = *self;
            lemma_sum_by_push(mid.channels@, cap_f(), chan);
            assert forall|b: u64| sum_by(fin.channels@, #[trigger] inbound_f(b)) == sum_by(
                mid.channels@,
                inbound_f(b),
            ) + (if asset_id == Some(b) {
                asset_amount as int
            } else {
                0
            }) by {
                lemma_sum_by_push(mid.channels@, inbound_f(b), chan);
            }
            assert forall|b: u64| sum_by(fin.channels@, #[trigger] outbound_f(b)) == sum_by(
                mid.channels@,
                outbound_f(b),
            ) by {
                lemma_sum_by_push(mid.channels@, outbound_f(b), chan);
            }
            assert(chan_wf(chan));
            assert forall|i2: int| 0 <= i2 < fin.assets@.len() implies #[trigger] fin.account_ok(
                i2,
            ) by {
                let b = fin.assets@[i2].asset_id;
                if asset_id == Some(b) {
                    if learned_new {
                        assert(i2 == fin.assets@.len() - 1);
                        assert(fin.assets@[i2].off_view == issued_supply - asset_amount);
                        assert(sum_by(mid.channels@, inbound_f(b)) == 0);
                        assert(sum_by(mid.utxos@, spendable_f(b)) == 0);
                        assert(sum_by(mid.channels@, outbound_f(b)) == 0);
                        assert(sum_by(mid.transfers@, transit_f(b)) == 0);
                    } else {
                        lemma_asset_idx_at(*old(self), b, i2);
                        assert(old(self).account_ok(i2));
                    }
                } else {
                    assert(i2 < old(self).assets@.len());
                    assert(old(self).account_ok(i2));
                    assert(fin.assets@[i2].off_view == old(self).assets@[i2].off_view);
                    assert(fin.assets@[i2].issued_supply == old(self).assets@[i2].issued_supply);
                }
            }
            assert forall|j2: int|
                0 <= j2 < fin.channels@.len() implies ((#[trigger] fin.channels@[j2]).asset_id
                matches Some(a2) ==> fin.asset_registered(a2)) by {
                if j2 < fin.channels@.len() - 1 {
                    if let Some(a2) = fin.channels@[j2].asset_id {
                        assert(old(self).asset_registered(a2));
                        assert(mid.asset_registered(a2));
                        let w = choose|w: int|
                            0 <= w < mid.assets@.len() && mid.assets@[w].asset_id == a2;
                        assert(fin.assets@[w].asset_id == a2);
                    }
                } else {
                    if let Some(a2) = fin.channels@[j2].asset_id {
                        assert(mid.asset_registered(a2));
                        let w = choose|w: int|
                            0 <= w < mid.assets@.len() && mid.assets@[w].asset_id == a2;
                        assert(fin.assets@[w].asset_id == a2);
                    }
                }
            }
            assert forall|j2: int|
                0 <= j2 < fin.utxos@.len() implies ((#[trigger] fin.utxos@[j2]).alloc matches Some(
                al,
            ) ==> fin.asset_registered(al.asset_id)) by {
                if let Some(al) = fin.utxos@[j2].alloc {
                    assert(old(self).asset_registered(al.asset_id));
                    assert(mid.asset_registered(al.asset_id));
                    let w = choose|w: int|
                        0 <= w < mid.assets@.len() && mid.assets@[w].asset_id == al.asset_id;
                    assert(fin.assets@[w].asset_id == al.asset_id);
                }
            }
            assert forall|j2: int|
                0 <= j2 < fin.transfers@.len() implies ((#[trigger] fin.transfers@[j2]).asset_id
                matches Some(a2) ==> fin.asset_registered(a2)) by {
                if let Some(a2) = fin.transfers@[j2].asset_id {
                    assert(old(self).asset_registered(a2));
                    assert(mid.asset_registered(a2));
                    let w = choose|w: int|
                        0 <= w < mid.assets@.len() && mid.assets@[w].asset_id == a2;
                    assert(fin.assets@[w].asset_id == a2);
                }
            }
            assert(fin.wf());
        }
        Ok(cid)
    }
}

} // verus!
