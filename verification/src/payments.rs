//! Payments: the router's history records and the monotonic status
//! discipline — a payment leaves `Pending` for `Succeeded` or `Failed`
//! and never transitions again.

use vstd::prelude::*;

verus! {

/// Settlement status of a payment's HTLC.
#[derive(Clone, Copy, Debug, PartialEq, Eq, Structural)]
pub enum HtlcStatus {
    /// In flight; not yet settled either way.
    Pending,
    /// Settled: value moved on both ledgers.
    Succeeded,
    /// Failed: no value moved.
    Failed,
}

/// Direction of a payment from this node's point of view.
#[derive(Clone, Copy, Debug, PartialEq, Eq, Structural)]
pub enum PaymentDirection {
    /// Sent by this node.
    Outbound,
    /// Received by this node.
    Inbound,
}

/// One payment, kept forever as history.
#[derive(Clone, Copy, Debug, PartialEq, Eq, Structural)]
pub struct Payment {
    /// Unique payment hash.
    pub payment_hash: u64,
    /// The counterparty node the payment goes to or came from.
    pub peer: u64,
    /// Direction from this node's point of view.
    pub direction: PaymentDirection,
    /// Millisatoshi amount.
    pub amt_msat: u64,
    /// Asset carried alongside, if any.
    pub asset_id: Option<u64>,
    /// Units of that asset; zero when no asset is carried.
    pub asset_amount: u64,
    /// Settlement status.
    pub status: HtlcStatus,
}

/// Is the status terminal? A terminal status never changes again.
pub open spec fn terminal(s: HtlcStatus) -> bool {
    s == HtlcStatus::Succeeded || s == HtlcStatus::Failed
}

/// A lawful single-payment step: unchanged, or out of `Pending`.
pub open spec fn status_step_ok(a: HtlcStatus, b: HtlcStatus) -> bool {
    a == b || a == HtlcStatus::Pending
}

/// The payment history `post` lawfully extends `pre`: every payment of
/// `pre` is still there with its fields, and its status either unchanged
/// or settled out of `Pending`; new payments only at the end. No payment
/// transitions out of `Succeeded` or `Failed`.
pub open spec fn payments_monotonic(pre: Seq<Payment>, post: Seq<Payment>) -> bool {
    &&& pre.len() <= post.len()
    &&& forall|i: int|
        0 <= i < pre.len() ==> {
            &&& (#[trigger] post[i]).payment_hash == pre[i].payment_hash
            &&& post[i].peer == pre[i].peer
            &&& post[i].direction == pre[i].direction
            &&& post[i].amt_msat == pre[i].amt_msat
            &&& post[i].asset_id == pre[i].asset_id
            &&& post[i].asset_amount == pre[i].asset_amount
            &&& status_step_ok(pre[i].status, post[i].status)
        }
}

/// No payment transitions out of a terminal status: whenever a history
/// lawfully extends another, a payment that was `Succeeded` or `Failed`
/// keeps exactly that status.
pub proof fn lemma_terminal_status_is_final(pre: Seq<Payment>, post: Seq<Payment>, i: int)
    requires
        payments_monotonic(pre, post),
        0 <= i < pre.len(),
        terminal(pre[i].status),
    ensures
        post[i].status == pre[i].status,
{
}

/// Lawful extension is transitive, so the discipline holds across any
/// chain of operations.
pub proof fn lemma_payments_monotonic_trans(a: Seq<Payment>, b: Seq<Payment>, c: Seq<Payment>)
    requires
        payments_monotonic(a, b),
        payments_monotonic(b, c),
    ensures
        payments_monotonic(a, c),
{
    assert forall|i: int| 0 <= i < a.len() implies {
        &&& (#[trigger] c[i]).payment_hash == a[i].payment_hash
        &&& c[i].peer == a[i].peer
        &&& c[i].direction == a[i].direction
        &&& c[i].amt_msat == a[i].amt_msat
        &&& c[i].asset_id == a[i].asset_id
        &&& c[i].asset_amount == a[i].asset_amount
        &&& status_step_ok(a[i].status, c[i].status)
    } by {
        assert(b[i].payment_hash == a[i].payment_hash);
        assert(c[i].payment_hash == b[i].payment_hash);
    }
}

} // verus!
