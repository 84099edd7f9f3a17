//! Key derivation: from the administrator's password and a salt to two
//! values that are kept apart, the key that seals the snapshot and the
//! hash that answers whether a password is the right one.
//!
//! Both come from the same function, password and salt. What tells them
//! apart is the context that is fed into the derivation with them.

use crate::error::PersistError;
use crate::text::constant_time_eq;
use vstd::prelude::*;
use vstd::utf8::{encode_utf8, is_ascii_chars, is_ascii_chars_encode_utf8};

verus! {

/// Length of a salt in bytes.
pub const SALT_LEN: usize = 32;

/// Length of a derived key, and of a verification hash, in bytes.
pub const KEY_LEN: usize = 32;

/// The raw Argon2 hash of `password` with `salt` and the associated data
/// `context`, under the library's default parameters otherwise (Argon2id,
/// version 0x13, one lane, two passes, 19 MiB, 32 bytes of output, no
/// secret).
pub uninterp spec fn argon2_raw(password: Seq<u8>, salt: Seq<u8>, context: Seq<u8>) -> Seq<u8>;

/// The context of the key that seals the snapshot: none, so that the key
/// is what the function derives by default.
pub open spec fn key_context() -> Seq<u8> {
    encode_utf8(""@)
}

/// The context of the hash that a password is verified against.
pub open spec fn verification_context() -> Seq<u8> {
    encode_utf8("verification"@)
}

/// The two contexts are short, and they differ: the key and the hash are
/// derived in separate domains.
pub proof fn lemma_contexts()
    ensures
        key_context().len() == 0,
        verification_context().len() == 12,
        key_context() != verification_context(),
{
    reveal_strlit("");
    reveal_strlit("verification");
    assert(is_ascii_chars(""@));
    assert(is_ascii_chars("verification"@));
    is_ascii_chars_encode_utf8(""@);
    is_ascii_chars_encode_utf8("verification"@);
}

/// The key that `password` derives with `salt`.
pub open spec fn key_of(password: Seq<u8>, salt: Seq<u8>) -> Seq<u8> {
    argon2_raw(password, salt, key_context())
}

/// The verification hash that `password` derives with `salt`.
pub open spec fn hash_of(password: Seq<u8>, salt: Seq<u8>) -> Seq<u8> {
    argon2_raw(password, salt, verification_context())
}

/// The inputs that the key derivation function accepts.
pub open spec fn kdf_accepts(password: Seq<u8>, salt: Seq<u8>) -> bool {
    &&& password.len() <= u32::MAX
    &&& 8 <= salt.len() <= u32::MAX
}

/// What deriving a key from `password` and `salt` gives.
pub open spec fn derived(password: Seq<u8>, salt: Seq<u8>) -> Result<Seq<u8>, PersistError> {
    if kdf_accepts(password, salt) {
        Ok(key_of(password, salt))
    } else {
        Err(PersistError::KeyDerivation)
    }
}

/// What deriving a verification hash from `password` and `salt` gives.
pub open spec fn verification(password: Seq<u8>, salt: Seq<u8>) -> Result<
    Seq<u8>,
    PersistError,
> {
    if kdf_accepts(password, salt) {
        Ok(hash_of(password, salt))
    } else {
        Err(PersistError::KeyDerivation)
    }
}

/// The error of the key derivation function. Nothing is read from it.
#[verifier::external_type_specification]
#[verifier::external_body]
pub struct ExArgon2Error(argon2::Error);

/// `argon2::hash_raw` with `argon2::Config::default()`, but for the
/// associated data, which are `context`.
///
/// Not proved. The claim: with a context of at most 2^32 - 1 bytes, the
/// call fails exactly when the password is longer than 2^32 - 1 bytes or
/// the salt is shorter than 8 or longer than 2^32 - 1 bytes (the other
/// limits it checks are met by the default parameters); otherwise it
/// returns the 32 bytes that `argon2_raw` stands for, which depend on the
/// password, the salt and the context alone.
#[verifier::external_body]
fn argon2_hash_raw(password: &[u8], salt: &[u8], context: &[u8]) -> (r: Result<
    Vec<u8>,
    argon2::Error,
>)
    requires
        context@.len() <= u32::MAX,
    ensures
        r is Ok <==> kdf_accepts(password@, salt@),
        r matches Ok(key) ==> key@ == argon2_raw(password@, salt@, context@) && key@.len()
            == KEY_LEN,
{
    let mut config = argon2::Config::default();
    config.ad = context;
    argon2::hash_raw(password, salt, &config)
}

/// Derives the symmetric key from a password and a salt.
pub fn derive_key(password: &[u8], salt: &[u8]) -> (r: Result<Vec<u8>, PersistError>)
    ensures
        r matches Ok(key) ==> derived(password@, salt@) == Ok::<Seq<u8>, PersistError>(key@)
            && key@.len() == KEY_LEN,
        r matches Err(e) ==> derived(password@, salt@) == Err::<Seq<u8>, PersistError>(e),
{
    proof {
        lemma_contexts();
    }
    match argon2_hash_raw(password, salt, "".as_bytes()) {
        Ok(key) => Ok(key),
        Err(_) => Err(PersistError::KeyDerivation),
    }
}

/// Derives the bytes kept to answer later whether a password is the right
/// one. They are not the key: they are derived in a context of their own.
pub fn hash_for_verification(password: &[u8], salt: &[u8]) -> (r: Result<Vec<u8>, PersistError>)
    ensures
        r matches Ok(hash) ==> verification(password@, salt@) == Ok::<Seq<u8>, PersistError>(
            hash@,
        ) && hash@.len() == KEY_LEN,
        r matches Err(e) ==> verification(password@, salt@) == Err::<Seq<u8>, PersistError>(e),
{
    proof {
        lemma_contexts();
    }
    match argon2_hash_raw(password, salt, "verification".as_bytes()) {
        Ok(hash) => Ok(hash),
        Err(_) => Err(PersistError::KeyDerivation),
    }
}

/// Whether `password` with `salt` derives the verification hash
/// `expected_hash`.
pub open spec fn verifies(password: Seq<u8>, salt: Seq<u8>, expected_hash: Seq<u8>) -> bool {
    verification(password, salt) == Ok::<Seq<u8>, PersistError>(expected_hash)
}

/// Recomputes the hash of `password` and compares it with `expected_hash`.
pub fn verify(password: &[u8], salt: &[u8], expected_hash: &[u8]) -> (r: Result<
    bool,
    PersistError,
>)
    ensures
        r matches Ok(same) ==> kdf_accepts(password@, salt@) && same == verifies(
            password@,
            salt@,
            expected_hash@,
        ),
        r matches Err(e) ==> verification(password@, salt@) == Err::<Seq<u8>, PersistError>(e),
{
    match hash_for_verification(password, salt) {
        Ok(hash) => Ok(constant_time_eq(hash.as_slice(), expected_hash)),
        Err(e) => Err(e),
    }
}

} // verus!
