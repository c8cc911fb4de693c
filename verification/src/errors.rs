//! Error kinds reported by the ledger, the miner, the transaction model
//! and the UTXO engine.

use vstd::prelude::*;

verus! {

/// Every failure the library reports. Signature invalidity during
/// verification is a boolean outcome, not an error.
#[derive(Debug, Clone, Copy, PartialEq, Eq, Structural)]
pub enum ChainError {
    /// Storage could not be created or opened.
    StoreInitError,
    /// Storage refused a write or a flush.
    StoreWriteError,
    /// Storage refused a read, or an entry could not be decoded.
    StoreReadError,
    /// The block store holds no `"LAST"` entry: the ledger was never created.
    UninitializedLedgerError,
    /// The proof-of-work search exhausted the nonce space.
    MiningError,
    /// No timestamp could be produced (clock before epoch).
    ClockError,
    /// No transaction with the requested id is in the chain.
    TransactionNotFoundError,
    /// A transaction referenced by an input could not be found in the chain.
    PriorTransactionLookupError,
    /// The prior-transaction map lacks a usable entry for an input.
    MissingPriorTransactionError,
    /// The sending address is unknown to the wallet store.
    UnknownSenderError,
    /// The receiving address is unknown to the wallet store.
    UnknownReceiverError,
    /// The spendable outputs of the sender total less than the requested
    /// amount; carries the total that was available.
    InsufficientFundsError(i64),
    /// An encode/decode mismatch: a malformed address or a corrupt entry.
    SerializationError,
}

impl ChainError {
    /// A short description, for callers that print errors.
    pub fn describe(&self) -> (r: &'static str)
        ensures
            r@.len() > 0,
    {
        proof {
            reveal_strlit("store could not be initialized");
            reveal_strlit("store refused a write");
            reveal_strlit("store refused a read");
            reveal_strlit("ledger was never created");
            reveal_strlit("proof-of-work search exhausted");
            reveal_strlit("no timestamp available");
            reveal_strlit("transaction not found");
            reveal_strlit("prior transaction lookup failed");
            reveal_strlit("prior transaction missing or unusable");
            reveal_strlit("unknown sender");
            reveal_strlit("unknown receiver");
            reveal_strlit("insufficient funds");
            reveal_strlit("encode/decode mismatch");
        }
        match self {
            ChainError::StoreInitError => "store could not be initialized",
            ChainError::StoreWriteError => "store refused a write",
            ChainError::StoreReadError => "store refused a read",
            ChainError::UninitializedLedgerError => "ledger was never created",
            ChainError::MiningError => "proof-of-work search exhausted",
            ChainError::ClockError => "no timestamp available",
            ChainError::TransactionNotFoundError => "transaction not found",
            ChainError::PriorTransactionLookupError => "prior transaction lookup failed",
            ChainError::MissingPriorTransactionError => "prior transaction missing or unusable",
            ChainError::UnknownSenderError => "unknown sender",
            ChainError::UnknownReceiverError => "unknown receiver",
            ChainError::InsufficientFundsError(_) => "insufficient funds",
            ChainError::SerializationError => "encode/decode mismatch",
        }
    }
}

} // verus!
