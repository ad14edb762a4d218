use vstd::prelude::*;

verus! {

/// Every way a call into the store can fail. Each failing call reverts its
/// own state changes and leaves the store, the ledger and the obligation
/// untouched.
#[derive(Clone, Copy, PartialEq, Eq, Structural, Debug)]
pub enum StorageError {
    /// A payload of length zero was submitted.
    EmptyTransaction,
    /// The payload is longer than the configured maximum.
    TransactionTooLarge,
    /// The per-block cap on stored transactions was already reached.
    TooManyTransactions,
    /// The referenced record does not exist.
    RecordNotFound,
    /// A proof was submitted while no obligation is outstanding.
    UnexpectedProof,
    /// The commitment recomputed from the proof does not match.
    InvalidProof,
    /// The authorization cannot cover the requested count or bytes.
    InsufficientAuthorization,
    /// Too many authorizations already expire at the requested block.
    BlockAuthorizationCapacityReached,
    /// The expiry requested for an authorization is not within the
    /// authorization period.
    InvalidAuthorizationExpiry,
    /// A caller without the privileged origin attempted to authorize.
    Unauthorized,
}

} // verus!
