//! The error taxonomy that the gas station surfaces to its clients.
use vstd::prelude::*;

verus! {

/// Every failure a client of the gas station can observe, as distinct
/// variants so callers can react to each.
#[derive(Clone, Debug)]
pub enum GasStationError {
    /// The request failed validation of budget, duration or transaction
    /// structure; the caller must fix the request.
    InvalidRequest,
    /// The pool could not cover the requested budget; the caller retries
    /// later or the operator grows the pool.
    InsufficientPool,
    /// The reservation id is unknown, or already expired or released.
    ReservationNotFound,
    /// The submitted transaction does not match the reservation.
    InvalidTransaction,
    /// Bounded retries against the full-node were exhausted.
    ChainUnavailable,
    /// The chain returned a deterministic rejection, surfaced verbatim.
    ExecutionRejected(String),
    /// The signer failed; the reservation is released.
    SignerError(String),
}

impl GasStationError {
    /// A short human-readable description of the error's kind.
    pub fn message(&self) -> &'static str {
        match self {
            GasStationError::InvalidRequest => "invalid request",
            GasStationError::InsufficientPool => "insufficient gas pool to cover the budget",
            GasStationError::ReservationNotFound => "reservation not found or already expired",
            GasStationError::InvalidTransaction => "transaction does not match the reservation",
            GasStationError::ChainUnavailable => "chain unavailable after retries",
            GasStationError::ExecutionRejected(_) => "execution rejected by the chain",
            GasStationError::SignerError(_) => "signer failure",
        }
    }

    /// The text surfaced to the client: for a deterministic chain
    /// rejection or a signer failure, the carried reason, verbatim; for
    /// every other kind, its fixed description.
    pub fn client_message(&self) -> (r: &str)
        ensures
            self matches GasStationError::ExecutionRejected(reason) ==> r@ == reason@,
            self matches GasStationError::SignerError(reason) ==> r@ == reason@,
    {
        match self {
            GasStationError::ExecutionRejected(reason) => reason.as_str(),
            GasStationError::SignerError(reason) => reason.as_str(),
            _ => self.message(),
        }
    }
}

} // verus!
