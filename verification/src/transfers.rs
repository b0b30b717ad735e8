//! The asset-transfer state machine: one record per in-flight asset move
//! initiated by a transfer invoice or a send, advanced only by explicit
//! refresh calls fed with what the transport endpoints and the chain
//! observer reported.

use vstd::prelude::*;

verus! {

/// State of one asset transfer.
#[derive(Clone, Copy, Debug, PartialEq, Eq, Structural)]
pub enum TransferStatus {
    /// Invoice issued or send requested; nothing dispatched yet.
    Negotiated,
    /// Consignment dispatched to a transport endpoint; awaiting the
    /// counterparty.
    WaitingCounterparty,
    /// Counterparty accepted; awaiting on-chain depth.
    WaitingConfirmations,
    /// Ledger updated; the allocation moved.
    Settled,
    /// Endpoint unreachable, invalid consignment, or the confirmation
    /// horizon elapsed.
    Failed,
}

/// Is the transfer status terminal?
pub open spec fn transfer_terminal(s: TransferStatus) -> bool {
    s == TransferStatus::Settled || s == TransferStatus::Failed
}

/// One in-flight (or finished) asset move.
#[derive(Debug)]
pub struct Transfer {
    /// Does this node send the units (a send) or receive them (an
    /// invoice)?
    pub outbound: bool,
    /// A donation expects no return value; inbound-allocation
    /// bookkeeping on the counterparty is skipped, validation is not.
    pub donation: bool,
    /// The asset moved; an inbound transfer may leave it open until the
    /// counterparty's consignment names it.
    pub asset_id: Option<u64>,
    /// Units moved; zero for an inbound transfer until accepted.
    pub amount: u64,
    /// Confirmations required before settling; zero accepts an
    /// unconfirmed transfer.
    pub min_confirmations: u32,
    /// Blinded receiving commitment the move pays to.
    pub blinded: u64,
    /// Transport endpoints configured for consignment exchange.
    pub transport_endpoints: Vec<u64>,
    /// Height of the block anchoring the transfer, once accepted.
    pub anchor_height: u64,
    /// State-machine position.
    pub status: TransferStatus,
}

/// Field-wise sameness of two transfer records.
pub open spec fn transfer_like(a: Transfer, b: Transfer) -> bool {
    &&& a.outbound == b.outbound
    &&& a.donation == b.donation
    &&& a.asset_id == b.asset_id
    &&& a.amount == b.amount
    &&& a.min_confirmations == b.min_confirmations
    &&& a.blinded == b.blinded
    &&& a.transport_endpoints@ == b.transport_endpoints@
    &&& a.anchor_height == b.anchor_height
    &&& a.status == b.status
}

impl Clone for Transfer {
    fn clone(&self) -> (r: Self)
        ensures
            transfer_like(*self, r),
    {
        let mut eps: Vec<u64> = Vec::new();
        let mut i: usize = 0;
        while i < self.transport_endpoints.len()
            invariant
                i <= self.transport_endpoints@.len(),
                eps@ == self.transport_endpoints@.take(i as int),
            decreases self.transport_endpoints@.len() - i,
        {
            eps.push(self.transport_endpoints[i]);
            proof {
                assert(self.transport_endpoints@.take(i + 1) =~= self.transport_endpoints@.take(
                    i as int,
                ).push(self.transport_endpoints@[i as int]));
            }
            i = i + 1;
        }
        proof {
            assert(self.transport_endpoints@.take(self.transport_endpoints@.len() as int)
                =~= self.transport_endpoints@);
        }
        Transfer {
            outbound: self.outbound,
            donation: self.donation,
            asset_id: self.asset_id,
            amount: self.amount,
            min_confirmations: self.min_confirmations,
            blinded: self.blinded,
            transport_endpoints: eps,
            anchor_height: self.anchor_height,
            status: self.status,
        }
    }
}

/// What a refresh learned about one transfer from the transport endpoints
/// or the chain observer.
#[derive(Clone, Copy, Debug, PartialEq, Eq, Structural)]
pub enum TransferUpdate {
    /// The consignment reached a transport endpoint.
    Dispatched,
    /// Every configured endpoint was unreachable.
    EndpointsUnreachable,
    /// The counterparty accepted: the consignment anchored in the block
    /// at `anchor_height`, moving `amount` units of `asset_id` out of an
    /// issued supply of `issued_supply`.
    Accepted { anchor_height: u64, asset_id: u64, amount: u64, issued_supply: u64 },
    /// The consignment did not validate.
    InvalidConsignment,
    /// The caller-supplied confirmation horizon elapsed.
    HorizonElapsed,
}

/// One refresh event, addressed to a transfer by its index in the
/// transfer list.
#[derive(Clone, Copy, Debug, PartialEq, Eq, Structural)]
pub struct RefreshEvent {
    /// Index of the transfer the event speaks of.
    pub transfer_idx: usize,
    /// What was learned.
    pub update: TransferUpdate,
}

/// Units of asset `a` that one transfer holds in transit: units taken
/// from the spendable balance of an outbound transfer that has not yet
/// settled or failed.
pub open spec fn transit_contrib(t: Transfer, a: u64) -> int {
    if t.outbound && !transfer_terminal(t.status) && t.asset_id == Some(a) {
        t.amount as int
    } else {
        0
    }
}


/// The in-transit measure of asset `a`, as a function on transfers.
pub open spec fn transit_f(a: u64) -> spec_fn(Transfer) -> int {
    |t: Transfer| transit_contrib(t, a)
}

} // verus!
