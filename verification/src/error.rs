//! The error kinds that every operation of the store reports.

use vstd::prelude::*;

verus! {

/// Why an operation was refused.
#[derive(Clone, Copy, Debug, PartialEq, Eq, Structural)]
pub enum StoreError {
    /// Bad or missing session, or bad administrator password.
    Unauthorized,
    /// The name is taken, the puzzle is already set or already solved.
    Conflict,
    /// Unknown session, puzzle or team.
    NotFound,
    /// Malformed input.
    BadRequest,
    /// Key derivation, encryption or serialization failed.
    Internal,
}

/// Why a snapshot could not be sealed or opened.
#[derive(Clone, Copy, Debug, PartialEq, Eq, Structural)]
pub enum PersistError {
    /// The file is too short to hold a salt and a nonce.
    CorruptHeader,
    /// The key derivation function refused its input.
    KeyDerivation,
    /// The cipher rejected the file: wrong password, or the file was altered.
    Decryption,
    /// The cipher refused to encrypt.
    Encryption,
    /// The system's random source gave nothing.
    Entropy,
    /// No administrator password has been set, so there is no key.
    MissingKey,
    /// The decrypted bytes are not a serialized snapshot.
    Malformed,
    /// The snapshot breaks an invariant of the store.
    Inconsistent,
}

} // verus!
