use apollo::cipher::{decrypt_state, encrypt, encrypt_with_nonce, HEADER_LEN};
use apollo::error::PersistError;
use apollo::kdf::{derive_key, hash_for_verification, verify};

const SALT: [u8; 32] = [7u8; 32];

#[test]
fn decrypt_inverts_encrypt() {
    let key = derive_key(b"hunter2", &SALT).unwrap();
    let blob = encrypt(b"the payload", &key, &SALT).unwrap();
    assert_eq!(blob.len(), HEADER_LEN + 11 + 16);
    assert_eq!(&blob[..32], &SALT[..]);
    assert_eq!(decrypt_state(&blob, b"hunter2"), Ok(b"the payload".to_vec()));
}

#[test]
fn empty_plaintext_round_trips() {
    let key = derive_key(b"pw", &SALT).unwrap();
    let blob = encrypt(b"", &key, &SALT).unwrap();
    assert_eq!(blob.len(), HEADER_LEN + 16);
    assert_eq!(decrypt_state(&blob, b"pw"), Ok(Vec::new()));
}

#[test]
fn wrong_password_fails() {
    let key = derive_key(b"right", &SALT).unwrap();
    let blob = encrypt(b"secret state", &key, &SALT).unwrap();
    assert_eq!(decrypt_state(&blob, b"wrong"), Err(PersistError::Decryption));
}

#[test]
fn tampering_fails() {
    let key = derive_key(b"right", &SALT).unwrap();
    let mut blob = encrypt(b"secret state", &key, &SALT).unwrap();
    let last = blob.len() - 1;
    blob[last] ^= 1;
    assert_eq!(decrypt_state(&blob, b"right"), Err(PersistError::Decryption));
    blob[last] ^= 1;
    blob[40] ^= 1;
    assert_eq!(decrypt_state(&blob, b"right"), Err(PersistError::Decryption));
}

#[test]
fn truncated_header_is_corrupt() {
    assert_eq!(decrypt_state(&[], b"pw"), Err(PersistError::CorruptHeader));
    assert_eq!(decrypt_state(&[0u8; 31], b"pw"), Err(PersistError::CorruptHeader));
    assert_eq!(decrypt_state(&[0u8; 55], b"pw"), Err(PersistError::CorruptHeader));
    assert_eq!(decrypt_state(&[0u8; 56], b"pw"), Err(PersistError::Decryption));
}

#[test]
fn nonce_is_fresh_for_each_call() {
    let key = derive_key(b"pw", &SALT).unwrap();
    let a = encrypt(b"same", &key, &SALT).unwrap();
    let b = encrypt(b"same", &key, &SALT).unwrap();
    assert_ne!(&a[32..56], &b[32..56]);
    assert_ne!(a, b);
}

#[test]
fn fixed_nonce_gives_fixed_blob() {
    let key = derive_key(b"pw", &SALT).unwrap();
    let nonce = [9u8; 24];
    let a = encrypt_with_nonce(b"same", &key, &SALT, &nonce).unwrap();
    let b = encrypt_with_nonce(b"same", &key, &SALT, &nonce).unwrap();
    assert_eq!(a, b);
    assert_eq!(&a[32..56], &nonce[..]);
    assert_ne!(&a[56..60], b"same");
}

#[test]
fn key_is_thirty_two_bytes_and_depends_on_both_inputs() {
    let k1 = derive_key(b"pw", &SALT).unwrap();
    let k2 = derive_key(b"pw", &SALT).unwrap();
    let k3 = derive_key(b"pw2", &SALT).unwrap();
    let k4 = derive_key(b"pw", &[8u8; 32]).unwrap();
    assert_eq!(k1.len(), 32);
    assert_eq!(k1, k2);
    assert_ne!(k1, k3);
    assert_ne!(k1, k4);
    assert_ne!(&k1[..2], b"pw");
}

#[test]
fn short_salt_is_refused() {
    assert_eq!(derive_key(b"pw", &[1u8; 7]), Err(PersistError::KeyDerivation));
    assert!(derive_key(b"pw", &[1u8; 8]).is_ok());
    assert!(derive_key(b"", &[1u8; 8]).is_ok());
}

#[test]
fn verify_accepts_only_the_right_password() {
    let hash = hash_for_verification(b"pw", &SALT).unwrap();
    assert_eq!(verify(b"pw", &SALT, &hash), Ok(true));
    assert_eq!(verify(b"pW", &SALT, &hash), Ok(false));
    assert_eq!(verify(b"pw", &SALT, &hash[..31]), Ok(false));
    assert_eq!(verify(b"pw", &[1u8; 3], &hash), Err(PersistError::KeyDerivation));
}

#[test]
fn file_without_room_for_the_tag_fails_to_decrypt() {
    for len in 56..72 {
        assert_eq!(decrypt_state(&vec![0u8; len], b"pw"), Err(PersistError::Decryption));
    }
    let key = derive_key(b"pw", &SALT).unwrap();
    let blob = encrypt(b"", &key, &SALT).unwrap();
    assert_eq!(blob.len(), 72);
    assert_eq!(decrypt_state(&blob[..71], b"pw"), Err(PersistError::Decryption));
    assert_eq!(decrypt_state(&blob, b"pw"), Ok(Vec::new()));
}

#[test]
fn sealed_file_is_longer_by_header_and_tag() {
    let key = derive_key(b"pw", &SALT).unwrap();
    for len in [0usize, 1, 63, 64, 65, 1000] {
        let plaintext = vec![9u8; len];
        assert_eq!(encrypt(&plaintext, &key, &SALT).unwrap().len(), 56 + len + 16);
        let fixed = encrypt_with_nonce(&plaintext, &key, &SALT, &[2u8; 24]).unwrap();
        assert_eq!(fixed.len(), 56 + len + 16);
    }
}

#[test]
fn verification_hash_is_not_the_key() {
    let key = derive_key(b"pw", &SALT).unwrap();
    let hash = hash_for_verification(b"pw", &SALT).unwrap();
    assert_eq!(hash.len(), 32);
    assert_ne!(key, hash);
    assert_eq!(hash, hash_for_verification(b"pw", &SALT).unwrap());
    assert_eq!(verify(b"pw", &SALT, &hash), Ok(true));
    assert_eq!(verify(b"pw", &SALT, &key), Ok(false));
    let blob = encrypt(b"m", &hash, &SALT).unwrap();
    assert_eq!(decrypt_state(&blob, b"pw"), Err(PersistError::Decryption));
}
