//! The system's random source, from which salts, nonces and session
//! identifiers are drawn.

use chacha20poly1305::aead::rand_core::RngCore;
use chacha20poly1305::aead::OsRng;
use vstd::prelude::*;

verus! {

/// The error of the random source. Nothing is read from it.
#[verifier::external_type_specification]
#[verifier::external_body]
pub struct ExRandError(chacha20poly1305::aead::rand_core::Error);

/// `RngCore::try_fill_bytes` of `OsRng`, on a fresh buffer of `len` bytes.
///
/// Not proved. The claim: on success the buffer still has `len` bytes.
/// Nothing is said of what they are.
#[verifier::external_body]
pub(crate) fn os_random(len: usize) -> (r: Result<
    Vec<u8>,
    chacha20poly1305::aead::rand_core::Error,
>)
    ensures
        r matches Ok(bytes) ==> bytes@.len() == len,
{
    let mut bytes = vec![0u8; len];
    OsRng.try_fill_bytes(&mut bytes)?;
    Ok(bytes)
}

} // verus!
