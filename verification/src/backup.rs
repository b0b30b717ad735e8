//! Backup and restore: the whole node state as one versioned archive,
//! sealed under a key derived from the wallet password. Restore refuses a
//! mismatched version or a wrong password, and reproduces the state —
//! and with it every balance — exactly.

use vstd::prelude::*;
use crate::errors::NodeError;
use crate::ledger::Asset;
use crate::node::{assets_like, key_of, transfers_like, Node};
use crate::sums::lemma_sum_by_pointwise_eq;
use crate::transfers::{transfer_like, transit_f, Transfer};

verus! {

/// Version written into every archive; restore rejects any other.
pub const BACKUP_VERSION: u64 = 1;

/// A backup archive: the serialized, sealed snapshot of a node. Owned
/// exclusively by backup and restore; no other component reads it.
#[derive(Debug)]
pub struct Archive {
    /// Format version of the archive.
    pub version: u64,
    /// Tag of the key the archive is sealed under.
    pub key_tag: u64,
    /// The snapshot itself.
    pub state: Node,
}

/// Copies a vector of plain values.
fn copy_vec<T: Copy>(v: &Vec<T>) -> (r: Vec<T>)
    ensures
        r@ == v@,
{
    let mut r: Vec<T> = Vec::new();
    let mut i: usize = 0;
    while i < v.len()
        invariant
            i <= v@.len(),
            r@ == v@.take(i as int),
        decreases v@.len() - i,
    {
        r.push(v[i]);
        proof {
            assert(v@.take(i + 1) =~= v@.take(i as int).push(v@[i as int]));
        }
        i = i + 1;
    }
    proof {
        assert(v@.take(v@.len() as int) =~= v@);
    }
    r
}

/// Copies the asset records.
fn copy_assets(v: &Vec<Asset>) -> (r: Vec<Asset>)
    ensures
        assets_like(v@, r@),
{
    let mut r: Vec<Asset> = Vec::new();
    let mut i: usize = 0;
    while i < v.len()
        invariant
            i <= v@.len(),
            r@.len() == i,
            forall|j: int| 0 <= j < i ==> crate::ledger::asset_like(v@[j], #[trigger] r@[j]),
        decreases v@.len() - i,
    {
        let c = v[i].clone();
        r.push(c);
        i = i + 1;
    }
    r
}

/// Copies the transfer records.
fn copy_transfers(v: &Vec<Transfer>) -> (r: Vec<Transfer>)
    ensures
        transfers_like(v@, r@),
{
    let mut r: Vec<Transfer> = Vec::new();
    let mut i: usize = 0;
    while i < v.len()
        invariant
            i <= v@.len(),
            r@.len() == i,
            forall|j: int| 0 <= j < i ==> transfer_like(v@[j], #[trigger] r@[j]),
        decreases v@.len() - i,
    {
        let c = v[i].clone();
        r.push(c);
        i = i + 1;
    }
    r
}

impl Node {
    /// A faithful copy of the node's persistent state.
    fn clone_state(&self) -> (r: Node)
        ensures
            Node::same_state(*self, r),
            r.unlocked == false,
    {
        Node {
            node_id: self.node_id,
            key: self.key,
            unlocked: false,
            height: self.height,
            assets: copy_assets(&self.assets),
            utxos: copy_vec(&self.utxos),
            channels: copy_vec(&self.channels),
            payments: copy_vec(&self.payments),
            transfers: copy_transfers(&self.transfers),
            peers: copy_vec(&self.peers),
            next_outpoint: self.next_outpoint,
            next_channel_id: self.next_channel_id,
            next_payment_hash: self.next_payment_hash,
            next_blinded: self.next_blinded,
            next_txid: self.next_txid,
        }
    }

    /// Serializes the full state snapshot into an archive sealed under a
    /// key derived from `password`. The caller must hold the node
    /// exclusively while this runs: the snapshot is self-consistent.
    pub fn backup(&self, password: &Vec<u8>) -> (r: Result<Archive, NodeError>)
        requires
            self.wf(),
        ensures
            r is Ok <==> self.unlocked,
            !self.unlocked ==> r == Err::<Archive, NodeError>(NodeError::Locked),
            r matches Ok(ar) ==> {
                &&& ar.version == BACKUP_VERSION
                &&& ar.key_tag == key_of(password@)
                &&& Node::same_state(*self, ar.state)
                &&& ar.state.wf()
            },
    {
        if !self.unlocked {
            return Err(NodeError::Locked);
        }
        let key_tag = crate::node::derive_key(password);
        let state = self.clone_state();
        proof {
            lemma_same_state_wf(*self, state);
        }
        Ok(Archive { version: BACKUP_VERSION, key_tag, state })
    }

    /// Rehydrates a node from an archive into a fresh, locked node.
    /// Refuses a version mismatch and a wrong password. Any transfer
    /// that was non-terminal at backup time is restored as it was and
    /// must be re-validated by a refresh before being relied on, since
    /// the counterparty or the chain may have advanced meanwhile.
    pub fn restore(archive: Archive, password: &Vec<u8>) -> (r: Result<Node, NodeError>)
        requires
            archive.state.wf(),
        ensures
            r is Ok <==> archive.version == BACKUP_VERSION && archive.key_tag == key_of(
                password@,
            ),
            archive.version != BACKUP_VERSION ==> r == Err::<Node, NodeError>(
                NodeError::BackupVersionMismatch,
            ),
            r matches Ok(n) ==> {
                &&& n.wf()
                &&& !n.unlocked
                &&& Node::same_state(archive.state, n)
            },
    {
        if archive.version != BACKUP_VERSION {
            return Err(NodeError::BackupVersionMismatch);
        }
        let key_tag = crate::node::derive_key(password);
        if key_tag != archive.key_tag {
            return Err(NodeError::WrongPassword);
        }
        let n = archive.state;
        let out = Node { unlocked: false, ..n };
        proof {
            lemma_same_state_wf(n, out);
        }
        Ok(out)
    }
}

/// Two nodes with the same persistent state report the same balances for
/// every asset: restoring a backup into a fresh node reproduces
/// `spendable`, `offchain_outbound`, `offchain_inbound`, `in_transit`,
/// the issued supply and the units outside the view, for every asset.
pub proof fn lemma_state_balances(a: Node, b: Node, asset_id: u64)
    requires
        a.wf(),
        Node::same_state(a, b),
    ensures
        b.spendable_of(asset_id) == a.spendable_of(asset_id),
        b.offchain_outbound_of(asset_id) == a.offchain_outbound_of(asset_id),
        b.offchain_inbound_of(asset_id) == a.offchain_inbound_of(asset_id),
        b.in_transit_of(asset_id) == a.in_transit_of(asset_id),
        b.asset_registered(asset_id) == a.asset_registered(asset_id),
        a.asset_registered(asset_id) ==> b.issued_supply_of(asset_id) == a.issued_supply_of(
            asset_id,
        ) && b.off_view_of(asset_id) == a.off_view_of(asset_id),
{
    assert(forall|j: int|
        0 <= j < a.transfers@.len() ==> transit_f(asset_id)(#[trigger] a.transfers@[j])
            == transit_f(asset_id)(b.transfers@[j]));
    lemma_sum_by_pointwise_eq(a.transfers@, b.transfers@, transit_f(asset_id));
    if a.asset_registered(asset_id) {
        let i = a.asset_idx_of(asset_id);
        assert(b.assets@[i].asset_id == asset_id);
        assert(b.asset_registered(asset_id));
        let j = b.asset_idx_of(asset_id);
        assert(0 <= j < b.assets@.len() && b.assets@[j].asset_id == asset_id);
        if i != j {
            assert(a.assets@[j].asset_id == asset_id);
        }
        assert(i == j);
    }
    if b.asset_registered(asset_id) {
        let j = b.asset_idx_of(asset_id);
        assert(a.assets@[j].asset_id == asset_id);
    }
}

/// Well-formedness travels along state sameness: what `backup` archives
/// and `restore` rehydrates is well formed because the original was.
pub proof fn lemma_same_state_wf(a: Node, b: Node)
    requires
        a.wf(),
        Node::same_state(a, b),
    ensures
        b.wf(),
{
    assert forall|i: int| 0 <= i < b.assets@.len() implies #[trigger] b.account_ok(i) by {
        assert(a.account_ok(i));
        lemma_state_balances(a, b, b.assets@[i].asset_id);
        assert(b.assets@[i].asset_id == a.assets@[i].asset_id);
        assert(b.assets@[i].off_view == a.assets@[i].off_view);
        assert(b.assets@[i].issued_supply == a.assets@[i].issued_supply);
    }
    assert forall|i: int|
        0 <= i < b.utxos@.len() implies ((#[trigger] b.utxos@[i]).alloc matches Some(al)
        ==> b.asset_registered(al.asset_id)) by {
        if let Some(al) = b.utxos@[i].alloc {
            assert(a.asset_registered(al.asset_id));
            let w = choose|w: int|
                0 <= w < a.assets@.len() && a.assets@[w].asset_id == al.asset_id;
            assert(b.assets@[w].asset_id == al.asset_id);
        }
    }
    assert forall|i: int|
        0 <= i < b.channels@.len() implies ((#[trigger] b.channels@[i]).asset_id matches Some(a2)
        ==> b.asset_registered(a2)) by {
        if let Some(a2) = b.channels@[i].asset_id {
            assert(a.asset_registered(a2));
            let w = choose|w: int| 0 <= w < a.assets@.len() && a.assets@[w].asset_id == a2;
            assert(b.assets@[w].asset_id == a2);
        }
    }
    assert forall|i: int|
        0 <= i < b.transfers@.len() implies {
        &&& ((#[trigger] b.transfers@[i]).outbound ==> b.transfers@[i].asset_id is Some)
        &&& (b.transfers@[i].asset_id matches Some(a2) ==> b.asset_registered(a2))
        &&& b.transfers@[i].anchor_height <= crate::miner::MAX_HEIGHT + 1
    } by {
        assert(transfer_like(a.transfers@[i], b.transfers@[i]));
        if let Some(a2) = b.transfers@[i].asset_id {
            assert(a.asset_registered(a2));
            let w = choose|w: int| 0 <= w < a.assets@.len() && a.assets@[w].asset_id == a2;
            assert(b.assets@[w].asset_id == a2);
        }
    }
}

} // verus!
