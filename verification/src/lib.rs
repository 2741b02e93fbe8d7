//! Token ledger, pending order book and order matching of a small exchange
//! runtime, with their storage held as plain values.
pub mod store;
pub mod support;
pub mod tokens;
pub mod codec;
pub mod collections;
pub mod pendingorders;
pub mod matchorders;
