//! The error taxonomy of the node: authentication, insufficient funds,
//! malformed or expired invoices, transfer faults, backup faults and
//! internal inconsistencies.

use vstd::prelude::*;

verus! {

/// Why a node operation was refused. Every operation either fully applies
/// its state mutation or returns one of these with no mutation.
#[derive(Clone, Copy, Debug, PartialEq, Eq, Structural)]
pub enum NodeError {
    /// A mutating operation was called while the node is locked.
    Locked,
    /// The password handed to `unlock`, `backup` or `restore` is wrong.
    WrongPassword,
    /// Not enough spendable satoshis for the requested operation.
    InsufficientBtc,
    /// Not enough spendable units of the requested asset.
    InsufficientAssets,
    /// The asset identifier is not in the ledger.
    UnknownAsset,
    /// An asset with the same content-derived identifier already exists.
    AssetAlreadyIssued,
    /// The requested peer is not connected.
    PeerNotConnected,
    /// No channel with the given identifier.
    ChannelNotFound,
    /// The channel is not in a state that admits the operation.
    ChannelNotReady,
    /// A zero or out-of-range amount or parameter.
    InvalidAmount,
    /// The invoice does not parse as one of the two invoice kinds.
    InvoiceMalformed,
    /// The invoice parsed but its signature tag does not verify.
    InvoiceSignature,
    /// The invoice parsed and verifies but its expiry has elapsed.
    InvoiceExpired,
    /// A payment with this hash is already recorded.
    DuplicatePayment,
    /// No payment with the given hash.
    PaymentNotFound,
    /// No active channel to the destination carries sufficient balance.
    NoRoute,
    /// No transfer with the given identifier.
    TransferNotFound,
    /// A transfer event does not fit the transfer's current state or ledger.
    InvalidConsignment,
    /// A transfer needs at least one transport endpoint.
    InvalidTransportEndpoints,
    /// The backup archive was written by an incompatible version.
    BackupVersionMismatch,
    /// A machine limit (counter or height range) was reached.
    Internal,
}

/// The integer code attached to each error in API responses.
pub open spec fn error_code(e: NodeError) -> u16 {
    match e {
        NodeError::Locked => 401,
        NodeError::WrongPassword => 403,
        NodeError::InsufficientBtc => 402,
        NodeError::InsufficientAssets => 412,
        NodeError::UnknownAsset => 404,
        NodeError::AssetAlreadyIssued => 409,
        NodeError::PeerNotConnected => 421,
        NodeError::ChannelNotFound => 424,
        NodeError::ChannelNotReady => 425,
        NodeError::InvalidAmount => 400,
        NodeError::InvoiceMalformed => 460,
        NodeError::InvoiceSignature => 461,
        NodeError::InvoiceExpired => 462,
        NodeError::DuplicatePayment => 470,
        NodeError::PaymentNotFound => 471,
        NodeError::NoRoute => 472,
        NodeError::TransferNotFound => 480,
        NodeError::InvalidConsignment => 481,
        NodeError::InvalidTransportEndpoints => 482,
        NodeError::BackupVersionMismatch => 490,
        NodeError::Internal => 500,
    }
}

impl NodeError {
    /// The integer code reported beside the error string.
    pub fn code(&self) -> (c: u16)
        ensures
            c == error_code(*self),
    {
        match *self {
            NodeError::Locked => 401,
            NodeError::WrongPassword => 403,
            NodeError::InsufficientBtc => 402,
            NodeError::InsufficientAssets => 412,
            NodeError::UnknownAsset => 404,
            NodeError::AssetAlreadyIssued => 409,
            NodeError::PeerNotConnected => 421,
            NodeError::ChannelNotFound => 424,
            NodeError::ChannelNotReady => 425,
            NodeError::InvalidAmount => 400,
            NodeError::InvoiceMalformed => 460,
            NodeError::InvoiceSignature => 461,
            NodeError::InvoiceExpired => 462,
            NodeError::DuplicatePayment => 470,
            NodeError::PaymentNotFound => 471,
            NodeError::NoRoute => 472,
            NodeError::TransferNotFound => 480,
            NodeError::InvalidConsignment => 481,
            NodeError::InvalidTransportEndpoints => 482,
            NodeError::BackupVersionMismatch => 490,
            NodeError::Internal => 500,
        }
    }

    /// A short stable name for the error string of an API response.
    pub fn describe(&self) -> &'static str {
        match *self {
            NodeError::Locked => "node is locked",
            NodeError::WrongPassword => "wrong password",
            NodeError::InsufficientBtc => "insufficient bitcoin balance",
            NodeError::InsufficientAssets => "insufficient asset balance",
            NodeError::UnknownAsset => "unknown asset",
            NodeError::AssetAlreadyIssued => "asset already issued",
            NodeError::PeerNotConnected => "peer not connected",
            NodeError::ChannelNotFound => "channel not found",
            NodeError::ChannelNotReady => "channel not in a usable state",
            NodeError::InvalidAmount => "invalid amount or parameter",
            NodeError::InvoiceMalformed => "malformed invoice",
            NodeError::InvoiceSignature => "invoice signature does not verify",
            NodeError::InvoiceExpired => "invoice expired",
            NodeError::DuplicatePayment => "payment already recorded",
            NodeError::PaymentNotFound => "payment not found",
            NodeError::NoRoute => "no route with sufficient balance",
            NodeError::TransferNotFound => "transfer not found",
            NodeError::InvalidConsignment => "invalid consignment",
            NodeError::InvalidTransportEndpoints => "invalid transport endpoints",
            NodeError::BackupVersionMismatch => "backup version mismatch",
            NodeError::Internal => "internal limit reached",
        }
    }
}

} // verus!
