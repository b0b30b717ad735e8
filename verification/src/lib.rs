//! Core of a Lightning payment-channel node that carries a second,
//! client-side-validated asset ledger across its channels.
//!
//! The library models the channel lifecycle, the dual satoshi/asset ledger,
//! invoice encoding, the asset-transfer state machine and backup/restore.
//! All I/O (HTTP transport, chain indexing, block production) stays outside;
//! callers feed chain heights and transfer events in as plain values.

pub mod backup;
pub mod channels;
pub mod errors;
pub mod ledger;
pub mod codec;
pub mod miner;
pub mod node;
pub mod payments;
pub mod sums;
pub mod transfers;
