//! A minimal single-node cryptocurrency ledger: an append-only chain of
//! blocks holding UTXO-model transactions, secured by a proof-of-work
//! puzzle and elliptic-curve signatures over transaction inputs.

pub mod addr;
pub mod chain;
pub mod clock;
pub mod codec;
pub mod crypto;
pub mod errors;
pub mod mining;
pub mod spent;
pub mod store;
pub mod transaction;
pub mod tx;
pub mod wallet;

pub use errors::ChainError;
