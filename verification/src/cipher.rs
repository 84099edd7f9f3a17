//! Authenticated encryption of a snapshot: the sealed file is the salt, the
//! nonce and the ciphertext, one after the other.

use crate::entropy::os_random;
use crate::error::PersistError;
use crate::kdf::{derive_key, derived, kdf_accepts, key_of, KEY_LEN, SALT_LEN};
use chacha20poly1305::aead::Aead;
use chacha20poly1305::{KeyInit, XChaCha20Poly1305};
use secrecy::zeroize::Zeroize;
use vstd::prelude::*;
use vstd::slice::slice_subrange;

verus! {

/// Length of a nonce in bytes.
pub const NONCE_LEN: usize = 24;

/// Length of what precedes the ciphertext in a sealed file.
pub const HEADER_LEN: usize = 56;

/// The ciphertext, authentication tag included, that XChaCha20-Poly1305
/// makes of `plaintext` under `key` and `nonce`, with no associated data.
pub uninterp spec fn xchacha20poly1305_seal(
    key: Seq<u8>,
    nonce: Seq<u8>,
    plaintext: Seq<u8>,
) -> Seq<u8>;

/// The plaintext that XChaCha20-Poly1305 recovers from `ciphertext` under
/// `key` and `nonce`, or `None` where it rejects the ciphertext.
pub uninterp spec fn xchacha20poly1305_open(
    key: Seq<u8>,
    nonce: Seq<u8>,
    ciphertext: Seq<u8>,
) -> Option<Seq<u8>>;

/// Length of the authentication tag that ends a ciphertext.
pub const TAG_LEN: usize = 16;

/// The most bytes that the cipher takes in one message: 2^32 - 2 blocks
/// of 64 bytes. The block counter has 32 bits, and the first block is
/// spent on the key of the authenticator.
pub const MAX_MESSAGE: u64 = 274_877_906_816;

/// The plaintexts that can be sealed: within what the cipher takes, and
/// such that plaintext and tag together fit one allocation.
pub open spec fn sealable(plaintext: Seq<u8>) -> bool {
    plaintext.len() <= MAX_MESSAGE && plaintext.len() + TAG_LEN <= isize::MAX
}

/// The ciphertexts that the cipher can be asked to open: a message
/// within what it takes, and the tag.
pub open spec fn openable(ciphertext: Seq<u8>) -> bool {
    ciphertext.len() <= MAX_MESSAGE + TAG_LEN
}

/// Whether the plaintext can be sealed.
pub fn is_sealable(plaintext: &[u8]) -> (r: bool)
    ensures
        r == sealable(plaintext@),
{
    plaintext.len() as u64 <= MAX_MESSAGE && plaintext.len() <= isize::MAX as usize - TAG_LEN
}

/// Whether the cipher can be asked to open the ciphertext.
pub fn is_openable(ciphertext: &[u8]) -> (r: bool)
    ensures
        r == openable(ciphertext@),
{
    ciphertext.len() as u64 <= MAX_MESSAGE + TAG_LEN as u64
}

/// The error of the cipher's `encrypt` and `decrypt`. It says nothing but
/// that the call failed.
#[verifier::external_type_specification]
#[verifier::external_body]
pub struct ExAeadError(chacha20poly1305::aead::Error);

/// `Aead::encrypt` of `XChaCha20Poly1305`, keyed by `KeyInit::new`.
///
/// Not proved. The claim: on a plaintext of at most 2^32 - 2 blocks the
/// call succeeds, and returns the ciphertext that
/// `xchacha20poly1305_seal` stands for, which depends on the three arguments
/// alone, is longer than the plaintext by the tag, and is opened again by
/// the same cipher to the plaintext under the same key and nonce.
#[verifier::external_body]
fn aead_encrypt(key: &[u8], nonce: &[u8], plaintext: &[u8]) -> (r: Result<
    Vec<u8>,
    chacha20poly1305::aead::Error,
>)
    requires
        key@.len() == KEY_LEN,
        nonce@.len() == NONCE_LEN,
        sealable(plaintext@),
    ensures
        r is Ok,
        r matches Ok(ciphertext) ==> ciphertext@ == xchacha20poly1305_seal(
            key@,
            nonce@,
            plaintext@,
        ) && ciphertext@.len() == plaintext@.len() + TAG_LEN && xchacha20poly1305_open(
            key@,
            nonce@,
            ciphertext@,
        ) == Some(plaintext@),
{
    XChaCha20Poly1305::new(key.into()).encrypt(nonce.into(), plaintext)
}

/// `Aead::decrypt` of `XChaCha20Poly1305`, keyed by `KeyInit::new`.
///
/// Not proved. The claim: the outcome depends on the three arguments alone;
/// it is the plaintext that `xchacha20poly1305_open` stands for, or an error
/// where that is `None`. A ciphertext too short to hold the tag is
/// rejected before the cipher sees it. One whose message is beyond what
/// the cipher takes is left out: the cipher would not return on it.
#[verifier::external_body]
fn aead_decrypt(key: &[u8], nonce: &[u8], ciphertext: &[u8]) -> (r: Result<
    Vec<u8>,
    chacha20poly1305::aead::Error,
>)
    requires
        key@.len() == KEY_LEN,
        nonce@.len() == NONCE_LEN,
        openable(ciphertext@),
    ensures
        r matches Ok(plaintext) ==> xchacha20poly1305_open(key@, nonce@, ciphertext@) == Some(
            plaintext@,
        ),
        r is Err ==> xchacha20poly1305_open(key@, nonce@, ciphertext@) is None,
        ciphertext@.len() < TAG_LEN ==> r is Err,
{
    XChaCha20Poly1305::new(key.into()).decrypt(nonce.into(), ciphertext)
}

/// `Zeroize::zeroize` of `Vec<u8>`: overwrites the bytes with zeros and
/// empties the vector.
///
/// Not proved. The claim: the vector is empty afterwards.
#[verifier::external_body]
fn wipe(secret: &mut Vec<u8>)
    ensures
        final(secret)@.len() == 0,
{
    secret.zeroize();
}

/// The sealed file: salt, nonce, ciphertext.
pub open spec fn sealed(plaintext: Seq<u8>, key: Seq<u8>, salt: Seq<u8>, nonce: Seq<u8>) -> Seq<
    u8,
> {
    salt + nonce + xchacha20poly1305_seal(key, nonce, plaintext)
}

/// What opening a sealed file with a password gives.
///
/// A file too short for salt and nonce has a corrupt header. One whose
/// ciphertext is longer than any that the cipher makes fails to decrypt,
/// before the password is looked at.
pub open spec fn opened(blob: Seq<u8>, password: Seq<u8>) -> Result<Seq<u8>, PersistError> {
    if blob.len() < HEADER_LEN {
        Err(PersistError::CorruptHeader)
    } else {
        let salt = blob.subrange(0, SALT_LEN as int);
        let nonce = blob.subrange(SALT_LEN as int, HEADER_LEN as int);
        let ciphertext = blob.subrange(HEADER_LEN as int, blob.len() as int);
        if !openable(ciphertext) {
            Err(PersistError::Decryption)
        } else if !kdf_accepts(password, salt) {
            Err(PersistError::KeyDerivation)
        } else {
            match xchacha20poly1305_open(key_of(password, salt), nonce, ciphertext) {
                Some(plaintext) => Ok(plaintext),
                None => Err(PersistError::Decryption),
            }
        }
    }
}

/// Seals `plaintext` under `key` with the given nonce, and puts the salt
/// that the key was derived with in front.
///
/// Whatever password derives `key` from `salt` opens the result again.
pub fn encrypt_with_nonce(plaintext: &[u8], key: &[u8], salt: &[u8], nonce: &[u8]) -> (r: Result<
    Vec<u8>,
    PersistError,
>)
    requires
        key@.len() == KEY_LEN,
        salt@.len() == SALT_LEN,
        nonce@.len() == NONCE_LEN,
    ensures
        r is Ok <==> sealable(plaintext@),
        r matches Ok(blob) ==> blob@ == sealed(plaintext@, key@, salt@, nonce@) && blob@.len()
            == HEADER_LEN + plaintext@.len() + TAG_LEN,
        r matches Ok(blob) ==> forall|password: Seq<u8>|
            derived(password, salt@) == Ok::<Seq<u8>, PersistError>(key@) ==> #[trigger] opened(
                blob@,
                password,
            ) == Ok::<Seq<u8>, PersistError>(plaintext@),
        r matches Err(e) ==> e == PersistError::Encryption,
{
    if !is_sealable(plaintext) {
        return Err(PersistError::Encryption);
    }
    match aead_encrypt(key, nonce, plaintext) {
        Ok(ciphertext) => {
            let mut blob: Vec<u8> = Vec::new();
            blob.extend_from_slice(salt);
            blob.extend_from_slice(nonce);
            blob.extend_from_slice(ciphertext.as_slice());
            proof {
                lemma_split(salt@, nonce@, ciphertext@);
                assert(blob@ =~= salt@ + nonce@ + ciphertext@);
            }
            Ok(blob)
        },
        Err(_) => Err(PersistError::Encryption),
    }
}

/// A sealed file falls apart into the three parts it was made of.
pub proof fn lemma_split(salt: Seq<u8>, nonce: Seq<u8>, ciphertext: Seq<u8>)
    requires
        salt.len() == SALT_LEN,
        nonce.len() == NONCE_LEN,
    ensures
        ({
            let blob = salt + nonce + ciphertext;
            &&& blob.len() >= HEADER_LEN
            &&& blob.subrange(0, SALT_LEN as int) == salt
            &&& blob.subrange(SALT_LEN as int, HEADER_LEN as int) == nonce
            &&& blob.subrange(HEADER_LEN as int, blob.len() as int) == ciphertext
        }),
{
    let blob = salt + nonce + ciphertext;
    assert(blob.subrange(0, SALT_LEN as int) =~= salt);
    assert(blob.subrange(SALT_LEN as int, HEADER_LEN as int) =~= nonce);
    assert(blob.subrange(HEADER_LEN as int, blob.len() as int) =~= ciphertext);
}

/// Decrypting inverts encrypting: a file sealed under the key that a
/// password derives from the salt opens under that password to the
/// plaintext, provided the cipher opens what it sealed and the ciphertext
/// is of a length that it makes.
pub proof fn lemma_opened_sealed(
    plaintext: Seq<u8>,
    password: Seq<u8>,
    salt: Seq<u8>,
    nonce: Seq<u8>,
)
    requires
        salt.len() == SALT_LEN,
        nonce.len() == NONCE_LEN,
        kdf_accepts(password, salt),
        openable(xchacha20poly1305_seal(key_of(password, salt), nonce, plaintext)),
        xchacha20poly1305_open(
            key_of(password, salt),
            nonce,
            xchacha20poly1305_seal(key_of(password, salt), nonce, plaintext),
        ) == Some(plaintext),
    ensures
        opened(sealed(plaintext, key_of(password, salt), salt, nonce), password) == Ok::<
            Seq<u8>,
            PersistError,
        >(plaintext),
{
    let key = key_of(password, salt);
    lemma_split(salt, nonce, xchacha20poly1305_seal(key, nonce, plaintext));
}

/// A password under whose key the cipher rejects the ciphertext opens
/// nothing: the outcome is an error, never a value.
pub proof fn lemma_rejected_password_fails(
    plaintext: Seq<u8>,
    key: Seq<u8>,
    salt: Seq<u8>,
    nonce: Seq<u8>,
    wrong: Seq<u8>,
)
    requires
        salt.len() == SALT_LEN,
        nonce.len() == NONCE_LEN,
        kdf_accepts(wrong, salt) ==> xchacha20poly1305_open(
            key_of(wrong, salt),
            nonce,
            xchacha20poly1305_seal(key, nonce, plaintext),
        ) is None,
    ensures
        opened(sealed(plaintext, key, salt, nonce), wrong) is Err,
{
    lemma_split(salt, nonce, xchacha20poly1305_seal(key, nonce, plaintext));
}

/// Seals `plaintext` under `key` with a fresh random nonce.
///
/// A plaintext beyond what the cipher takes is refused before a nonce is
/// drawn, and nothing else is refused by the cipher. Any other failure is
/// that of the random source.
pub fn encrypt(plaintext: &[u8], key: &[u8], salt: &[u8]) -> (r: Result<Vec<u8>, PersistError>)
    requires
        key@.len() == KEY_LEN,
        salt@.len() == SALT_LEN,
    ensures
        r == Err::<Vec<u8>, PersistError>(PersistError::Encryption) <==> !sealable(plaintext@),
        r matches Ok(blob) ==> blob@.len() == HEADER_LEN + plaintext@.len() + TAG_LEN
            && exists|nonce: Seq<u8>|
            nonce.len() == NONCE_LEN && blob@ == #[trigger] sealed(plaintext@, key@, salt@, nonce),
        r matches Ok(blob) ==> forall|password: Seq<u8>|
            derived(password, salt@) == Ok::<Seq<u8>, PersistError>(key@) ==> #[trigger] opened(
                blob@,
                password,
            ) == Ok::<Seq<u8>, PersistError>(plaintext@),
        r matches Err(e) ==> e == PersistError::Entropy || e == PersistError::Encryption,
{
    if !is_sealable(plaintext) {
        return Err(PersistError::Encryption);
    }
    match os_random(NONCE_LEN) {
        Ok(nonce) => encrypt_with_nonce(plaintext, key, salt, nonce.as_slice()),
        Err(_) => Err(PersistError::Entropy),
    }
}

/// Opens a sealed file with a password: splits off salt and nonce, derives
/// the key again and lets the cipher authenticate and decrypt the rest.
///
/// A file too short for salt and nonce has a corrupt header. One that
/// holds them but has no room for the tag fails to decrypt, whatever the
/// password, and so does one whose ciphertext is longer than any that the
/// cipher makes.
pub fn decrypt_state(blob: &[u8], raw_pwd: &[u8]) -> (r: Result<Vec<u8>, PersistError>)
    ensures
        r matches Ok(plaintext) ==> opened(blob@, raw_pwd@) == Ok::<Seq<u8>, PersistError>(
            plaintext@,
        ),
        r matches Err(e) ==> opened(blob@, raw_pwd@) == Err::<Seq<u8>, PersistError>(e),
        blob@.len() < HEADER_LEN ==> r == Err::<Vec<u8>, PersistError>(
            PersistError::CorruptHeader,
        ),
        HEADER_LEN <= blob@.len() < HEADER_LEN + TAG_LEN ==> r == Err::<Vec<u8>, PersistError>(
            if raw_pwd@.len() <= u32::MAX {
                PersistError::Decryption
            } else {
                PersistError::KeyDerivation
            },
        ),
        blob@.len() > HEADER_LEN + MAX_MESSAGE + TAG_LEN ==> r == Err::<Vec<u8>, PersistError>(
            PersistError::Decryption,
        ),
{
    if blob.len() < HEADER_LEN {
        return Err(PersistError::CorruptHeader);
    }
    let salt = slice_subrange(blob, 0, SALT_LEN);
    let nonce = slice_subrange(blob, SALT_LEN, HEADER_LEN);
    let ciphertext = slice_subrange(blob, HEADER_LEN, blob.len());
    if !is_openable(ciphertext) {
        return Err(PersistError::Decryption);
    }
    match derive_key(raw_pwd, salt) {
        Ok(mut key) => {
            let outcome = aead_decrypt(key.as_slice(), nonce, ciphertext);
            wipe(&mut key);
            match outcome {
                Ok(plaintext) => Ok(plaintext),
                Err(_) => Err(PersistError::Decryption),
            }
        },
        Err(e) => Err(e),
    }
}

} // verus!
