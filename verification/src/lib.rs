use vstd::prelude::*;

pub mod types;
pub mod crypto;
pub mod merkle;
pub mod session;
pub mod ledger;
pub mod sync;
pub mod assembler;
pub mod blob;

verus! {

/// Failure taxonomy shared by every operation of the wallet core.
#[derive(Clone, Copy, Debug, PartialEq, Eq, Structural)]
pub enum WalletError {
    /// Malformed or precondition-violating request.
    InvalidInput,
    /// Well-formed value that violates a protocol or security invariant.
    IllegalInput,
    /// Referenced address, root hash, session or output does not exist.
    NotFound,
    /// Input selection cannot cover the requested output total.
    InsufficientFunds,
    /// A decryption collaborator failed.
    DecryptionError,
    /// A storage collaborator failed.
    StorageError,
}

} // verus!
