//! A gas-station service core for a MySocial-style blockchain: a sponsor
//! address lends temporarily-exclusive sets of its gas coins to external
//! users, co-signs their transactions, and reclaims the coins after
//! execution or expiry.
//!
//! This crate holds the verified heart of the service: the data model, the
//! reservation storage with its exclusivity and conservation invariants,
//! the gas pool, the object-lock auditor, the pool initializer arithmetic,
//! and the pure helpers behind the chain client. Networking, signing and
//! the async plumbing live outside the library.
use vstd::prelude::*;

pub mod chain_ops;
pub mod errors;
pub mod gas_pool;
pub mod gas_pool_initializer;
pub mod object_locks;
pub mod rpc;
pub mod storage;
pub mod types;

verus! {

/// Upper bound on the number of gas coins a single reservation may hold,
/// matching the on-chain limit on transaction gas-payment inputs.
pub const MAX_GAS_COINS_PER_RESERVATION: usize = 256;

} // verus!
