//! Core data model: addresses, coin references, gas coins, reservations,
//! on-chain ownership observations and transaction effects, all held as
//! plain values so the logic over them can be verified.
use vstd::prelude::*;

verus! {

/// A 32-byte account address, held as two 128-bit halves.
#[derive(Clone, Copy, Debug, PartialEq, Eq, Hash, Structural)]
pub struct Address {
    pub hi: u128,
    pub lo: u128,
}

/// A 32-byte globally unique object identity, held as two 128-bit halves.
#[derive(Clone, Copy, Debug, PartialEq, Eq, Hash, Structural)]
pub struct ObjectId {
    pub hi: u128,
    pub lo: u128,
}

/// A 32-byte content digest of an object at one version.
#[derive(Clone, Copy, Debug, PartialEq, Eq, Hash, Structural)]
pub struct Digest {
    pub hi: u128,
    pub lo: u128,
}

/// Identifier of a reservation; assigned by the storage backend,
/// monotonically increasing and never reused within a process lifetime.
pub type ReservationID = u64;

/// A reference to a specific historical state of an on-chain object:
/// `(object_id, version, digest)` jointly identify it.
#[derive(Clone, Copy, Debug, PartialEq, Eq, Hash, Structural)]
pub struct CoinRef {
    pub object_id: ObjectId,
    pub version: u64,
    pub digest: Digest,
}

/// A gas coin known to the pool: an object reference plus its balance in
/// native units.
#[derive(Clone, Copy, Debug, PartialEq, Eq, Hash, Structural)]
pub struct GasCoin {
    pub object_id: ObjectId,
    pub version: u64,
    pub digest: Digest,
    pub balance: u64,
}

impl GasCoin {
    /// The `(object_id, version, digest)` reference of this coin.
    pub open spec fn spec_coin_ref(self) -> CoinRef {
        CoinRef { object_id: self.object_id, version: self.version, digest: self.digest }
    }

    /// The `(object_id, version, digest)` reference of this coin.
    pub fn coin_ref(&self) -> (r: CoinRef)
        ensures
            r == self.spec_coin_ref(),
    {
        CoinRef { object_id: self.object_id, version: self.version, digest: self.digest }
    }
}

/// The owner of an on-chain object as the chain reports it.
#[derive(Clone, Copy, Debug, PartialEq, Eq, Hash, Structural)]
pub enum Owner {
    /// Owned by a single address; only such objects can serve as gas.
    AddressOwner(Address),
    /// Owned by another object (wrapped).
    ObjectOwner(Address),
    /// A shared object.
    Shared,
    /// An immutable object.
    Immutable,
}

/// One row of the active-reservation table: a time-bounded exclusive claim
/// on a set of gas coins.
#[derive(Clone, Debug)]
pub struct Reservation {
    pub id: ReservationID,
    pub sponsor: Address,
    pub coins: Vec<GasCoin>,
    pub budget: u64,
    pub expires_at: u64,
}

/// What the chain reports about one object when the auditor asks: its
/// current owner, version, digest and balance.
#[derive(Clone, Copy, Debug, PartialEq, Eq, Structural)]
pub struct CoinObservation {
    pub object_id: ObjectId,
    pub owner: Owner,
    pub version: u64,
    pub digest: Digest,
    pub balance: u64,
}

/// One object touched by an executed transaction, as the effects report
/// it: its fresh version, digest, owner and balance.
#[derive(Clone, Copy, Debug, PartialEq, Eq, Structural)]
pub struct EffectEntry {
    pub object_id: ObjectId,
    pub version: u64,
    pub digest: Digest,
    pub owner: Owner,
    pub balance: u64,
}

/// The structured result of an executed transaction, reduced to what the
/// pool reads: the gas-coin objects it mutated, created or deleted, and
/// the gas charged.
#[derive(Clone, Debug)]
pub struct TxEffects {
    pub mutated: Vec<EffectEntry>,
    pub created: Vec<EffectEntry>,
    pub deleted: Vec<ObjectId>,
    pub gas_used: u64,
}

/// The gas-relevant fields of a user-submitted transaction, as decoded
/// from its serialized bytes: who pays, with which coin references, under
/// which budget and price.
#[derive(Clone, Debug)]
pub struct TxDataSummary {
    pub gas_owner: Address,
    pub gas_payment: Vec<CoinRef>,
    pub gas_budget: u64,
    pub gas_price: u64,
}

} // verus!
