//! Channels: the bilateral, funded constructs the node routes payments
//! over, with dual capacity — satoshis and, optionally, units of one
//! asset fixed at funding.

use vstd::prelude::*;
use crate::miner::MAX_HEIGHT;

verus! {

/// Largest channel capacity the protocol admits, in satoshis.
pub const MAX_CHANNEL_SAT: u64 = 16_777_215;

/// Smallest channel capacity accepted at open, in satoshis.
pub const MIN_CHANNEL_SAT: u64 = 5_000;

/// Millisatoshis reserved out of the capacity for commitment fees.
pub const CHANNEL_FEE_MSAT: u64 = 2_000_000;

/// Confirmations the funding transaction needs before the channel is
/// ready to route.
pub const FUNDING_DEPTH: u64 = 6;

/// Confirmations after which a cooperatively closed channel leaves the
/// active set.
pub const COOP_CLOSE_DEPTH: u64 = 6;

/// Confirmations after which a forcibly closed channel leaves the active
/// set; far deeper than the cooperative depth, because its outputs are
/// encumbered by the commitment transaction's relative timelock.
pub const FORCE_CLOSE_DEPTH: u64 = 144;

/// Lifecycle state of a channel. A channel whose closing transaction has
/// reached the depth its close type requires is removed from the active
/// set altogether (the `Closed` state is never stored).
#[derive(Clone, Copy, Debug, PartialEq, Eq, Structural)]
pub enum ChannelState {
    /// Funding broadcast, not yet confirmed.
    Pending,
    /// Funding confirmed, not yet at the protocol depth.
    Funded,
    /// Ready to route payments.
    Active,
    /// A mutually signed closing transaction is confirming.
    ClosingCooperative,
    /// A unilaterally broadcast commitment transaction is confirming.
    ClosingForced,
    /// Fully closed; only ever reported, never stored.
    Closed,
}

/// A channel record. When `asset_id` is set, `asset_local + asset_remote`
/// is constant for the channel's lifetime: there is no asset top-up after
/// funding.
#[derive(Clone, Copy, Debug)]
pub struct Channel {
    /// Identifier, assigned in creation order.
    pub channel_id: u64,
    /// Identity of the counterparty.
    pub peer: u64,
    /// Total satoshis committed to the funding output.
    pub capacity_sat: u64,
    /// Millisatoshis on our side.
    pub local_balance_msat: u64,
    /// Millisatoshis on the counterparty's side.
    pub remote_balance_msat: u64,
    /// Millisatoshis reserved for fees out of the capacity.
    pub fees_msat: u64,
    /// The asset carried by the funding output, if any.
    pub asset_id: Option<u64>,
    /// Units of the asset on our side.
    pub asset_local: u64,
    /// Units of the asset on the counterparty's side.
    pub asset_remote: u64,
    /// Handle of the funding transaction.
    pub funding_txid: u64,
    /// Height of the block holding the funding transaction.
    pub funding_height: u64,
    /// Height of the block holding the closing transaction, once closing.
    pub close_height: u64,
    /// Lifecycle state.
    pub state: ChannelState,
    /// Whether the channel was announced publicly.
    pub public: bool,
    /// Whether anchor outputs were used.
    pub with_anchors: bool,
    /// Base routing fee, millisatoshis.
    pub fee_base_msat: u32,
    /// Proportional routing fee, millionths.
    pub fee_proportional_millionths: u32,
}

/// Well-formedness of one channel record: the millisatoshi sides and the
/// fee reserve partition the capacity, the asset sides are zero without an
/// asset, and heights stay in the modeled range.
pub open spec fn chan_wf(c: Channel) -> bool {
    &&& c.capacity_sat <= MAX_CHANNEL_SAT
    &&& c.local_balance_msat + c.remote_balance_msat + c.fees_msat == c.capacity_sat * 1000
    &&& (c.asset_id is None ==> c.asset_local == 0 && c.asset_remote == 0)
    &&& c.funding_height <= MAX_HEIGHT + 1
    &&& c.close_height <= MAX_HEIGHT + 1
    &&& (match c.state {
        ChannelState::Pending => true,
        ChannelState::Funded => true,
        ChannelState::Active => true,
        ChannelState::ClosingCooperative => true,
        ChannelState::ClosingForced => true,
        ChannelState::Closed => false,
    })
}

/// Is the channel in one of the two closing states?
pub open spec fn chan_closing(c: Channel) -> bool {
    c.state == ChannelState::ClosingCooperative || c.state == ChannelState::ClosingForced
}

/// The confirmation depth this channel's close type requires before the
/// channel leaves the active set: shallow for a cooperative close, deep
/// for a forced one.
pub open spec fn close_depth(c: Channel) -> u64 {
    if c.state == ChannelState::ClosingForced {
        FORCE_CLOSE_DEPTH
    } else {
        COOP_CLOSE_DEPTH
    }
}

/// Confirmations a transaction in a block at `at_height` has at `height`.
pub open spec fn confirmations(height: u64, at_height: u64) -> int {
    if height >= at_height {
        height - at_height + 1
    } else {
        0
    }
}

impl Channel {
    /// Is the channel ready to route payments?
    pub fn ready(&self) -> (r: bool)
        ensures
            r == (self.state == ChannelState::Active),
    {
        match self.state {
            ChannelState::Active => true,
            _ => false,
        }
    }
}

/// Units of asset `a` on our side that one channel contributes to the
/// off-chain outbound balance.
pub open spec fn outbound_contrib(c: Channel, a: u64) -> int {
    if c.asset_id == Some(a) {
        c.asset_local as int
    } else {
        0
    }
}

/// Units of asset `a` on the counterparty's side that one channel
/// contributes to the off-chain inbound balance.
pub open spec fn inbound_contrib(c: Channel, a: u64) -> int {
    if c.asset_id == Some(a) {
        c.asset_remote as int
    } else {
        0
    }
}

/// Satoshis one channel keeps committed on chain.
pub open spec fn cap_contrib(c: Channel) -> int {
    c.capacity_sat as int
}


/// The off-chain outbound measure of asset `a`, as a function on channels.
pub open spec fn outbound_f(a: u64) -> spec_fn(Channel) -> int {
    |c: Channel| outbound_contrib(c, a)
}

/// The off-chain inbound measure of asset `a`, as a function on channels.
pub open spec fn inbound_f(a: u64) -> spec_fn(Channel) -> int {
    |c: Channel| inbound_contrib(c, a)
}

/// The committed-capacity measure on channels.
pub open spec fn cap_f() -> spec_fn(Channel) -> int {
    |c: Channel| cap_contrib(c)
}

} // verus!
