//! Request and response types of the two RPC endpoints, with the
//! validation bounds on reservation requests.
use vstd::prelude::*;

use crate::errors::GasStationError;
use crate::types::{Address, CoinRef, GasCoin, ReservationID, TxEffects};

verus! {

/// The largest gas budget a single reservation may request, in native
/// units (2 MYS).
pub const MAX_BUDGET: u64 = 2_000_000_000;

/// The longest a reservation may be held, in seconds (10 minutes).
pub const MAX_DURATION_S: u64 = 600;

/// The body of a reserve-gas request.
#[derive(Clone, Copy, Debug, PartialEq, Eq, Structural)]
pub struct ReserveGasRequest {
    pub gas_budget: u64,
    pub reserve_duration_secs: u64,
}

impl ReserveGasRequest {
    /// The request is within the accepted bounds: a positive budget of at
    /// most `MAX_BUDGET`, and a positive duration of at most
    /// `MAX_DURATION_S` seconds.
    pub open spec fn is_valid(self) -> bool {
        &&& 0 < self.gas_budget <= MAX_BUDGET
        &&& 0 < self.reserve_duration_secs <= MAX_DURATION_S
    }

    /// Accept the request exactly when budget and duration are positive
    /// and within their caps; reject it as an invalid request otherwise.
    pub fn check_validity(&self) -> (r: Result<(), GasStationError>)
        ensures
            r is Ok <==> self.is_valid(),
            r is Err ==> r == Result::<(), GasStationError>::Err(GasStationError::InvalidRequest),
    {
        if self.gas_budget == 0 {
            return Err(GasStationError::InvalidRequest);
        }
        if self.gas_budget > MAX_BUDGET {
            return Err(GasStationError::InvalidRequest);
        }
        if self.reserve_duration_secs == 0 {
            return Err(GasStationError::InvalidRequest);
        }
        if self.reserve_duration_secs > MAX_DURATION_S {
            return Err(GasStationError::InvalidRequest);
        }
        Ok(())
    }
}

/// The payload of a successful reserve-gas response.
#[derive(Clone, Debug)]
pub struct ReserveGasResult {
    pub sponsor_address: Address,
    pub reservation_id: ReservationID,
    pub gas_coins: Vec<CoinRef>,
}

/// The body of a reserve-gas response: exactly one of `result` and
/// `error` is present.
#[derive(Clone, Debug)]
pub struct ReserveGasResponse {
    pub result: Option<ReserveGasResult>,
    pub error: Option<String>,
}

impl ReserveGasResponse {
    /// Exactly one of the two sides is filled in.
    pub open spec fn is_well_formed(self) -> bool {
        self.result is Some <==> self.error is None
    }

    /// A successful response carrying the sponsor, the reservation id and
    /// the references of the lent coins.
    pub fn new_ok(
        sponsor_address: Address,
        reservation_id: ReservationID,
        gas_coins: Vec<CoinRef>,
    ) -> (r: ReserveGasResponse)
        ensures
            r.is_well_formed(),
            r.result matches Some(res) ==> res.sponsor_address == sponsor_address
                && res.reservation_id == reservation_id && res.gas_coins@ == gas_coins@,
            r.result is Some,
            r.error is None,
    {
        ReserveGasResponse {
            result: Some(
                ReserveGasResult { sponsor_address, reservation_id, gas_coins },
            ),
            error: None,
        }
    }

    /// A failed response carrying only the error message.
    pub fn new_err(error: String) -> (r: ReserveGasResponse)
        ensures
            r.is_well_formed(),
            r.result is None,
            r.error matches Some(e) ==> e@ == error@,
            r.error is Some,
    {
        ReserveGasResponse { result: None, error: Some(error) }
    }
}

/// The body of an execute-transaction request: the reservation to spend,
/// the serialized transaction, and the user's signature bytes.
#[derive(Clone, Debug)]
pub struct ExecuteTxRequest {
    pub reservation_id: ReservationID,
    pub tx_bytes: Vec<u8>,
    pub user_sig: Vec<u8>,
}

/// The body of an execute-transaction response: exactly one of `effects`
/// and `error` is present.
#[derive(Clone, Debug)]
pub struct ExecuteTxResponse {
    pub effects: Option<TxEffects>,
    pub error: Option<String>,
}

impl ExecuteTxResponse {
    /// Exactly one of the two sides is filled in.
    pub open spec fn is_well_formed(self) -> bool {
        self.effects is Some <==> self.error is None
    }

    /// A successful response carrying the observed transaction effects,
    /// unmodified.
    pub fn new_ok(effects: TxEffects) -> (r: ExecuteTxResponse)
        ensures
            r.is_well_formed(),
            r.effects is Some,
            r.error is None,
            r.effects matches Some(e) ==> e == effects,
    {
        ExecuteTxResponse { effects: Some(effects), error: None }
    }

    /// A failed response carrying only the error message.
    pub fn new_err(error: String) -> (r: ExecuteTxResponse)
        ensures
            r.is_well_formed(),
            r.effects is None,
            r.error is Some,
            r.error matches Some(e) ==> e@ == error@,
    {
        ExecuteTxResponse { effects: None, error: Some(error) }
    }
}

/// The object references of a list of coins, in the same order.
pub fn coin_refs_of(coins: &Vec<GasCoin>) -> (r: Vec<CoinRef>)
    ensures
        r@.len() == coins@.len(),
        forall|k: int| 0 <= k < coins@.len() ==> r@[k] == (#[trigger] coins@[k]).spec_coin_ref(),
{
    let mut r: Vec<CoinRef> = Vec::new();
    let mut i: usize = 0;
    while i < coins.len()
        invariant
            i <= coins@.len(),
            r@.len() == i,
            forall|k: int| 0 <= k < i ==> r@[k] == (#[trigger] coins@[k]).spec_coin_ref(),
        decreases coins@.len() - i,
    {
        r.push(coins[i].coin_ref());
        i += 1;
    }
    r
}

} // verus!
