//! Saving the state to an encrypted file and loading it at startup.
//!
//! The file is read and written elsewhere: what is made here is its bytes,
//! and what is taken here is its bytes, or `None` where there is no file.

use crate::cipher::{
    decrypt_state, encrypt_with_nonce, is_sealable, opened, sealable, sealed, NONCE_LEN,
};
use crate::entropy::os_random;
use crate::error::PersistError;
use crate::kdf::{hash_of, kdf_accepts, key_of, SALT_LEN};
use crate::snapshot::{
    decoded, deserialize, encodable, encoded, lemma_decode_encode, lemma_snapshot_view,
    serialize, SnapshotView,
};
use crate::state::{password_bytes, StoreState};
use crate::store::Store;
use vstd::prelude::*;

verus! {

/// What loading a sealed file with a password gives: the snapshot that it
/// holds, or why there is none to be had from it.
pub open spec fn loaded(blob: Seq<u8>, password: Seq<u8>) -> Result<SnapshotView, PersistError> {
    match opened(blob, password) {
        Err(e) => Err(e),
        Ok(plaintext) => match decoded(plaintext) {
            None => Err(PersistError::Malformed),
            Some(v) => if v.valid() {
                Ok(v)
            } else {
                Err(PersistError::Inconsistent)
            },
        },
    }
}

/// Loading the file with the password gives the three tables of `state`.
pub open spec fn restores(blob: Seq<u8>, password: Seq<u8>, state: StoreState) -> bool {
    loaded(blob, password) matches Ok(v) && v.state() == state.with_admin_of(StoreState::empty())
}

/// The snapshot holds the three tables of `state`, and nothing that a
/// store could not hold.
pub open spec fn pictures(v: SnapshotView, state: StoreState) -> bool {
    v.valid() && encodable(v) && v.state() == state.with_admin_of(StoreState::empty())
}

/// What is to be sealed: the serialized tables of the store, provided that
/// there is a key to seal them with and that they are within what the
/// cipher takes.
fn sealable_tables(store: &Store) -> (r: Result<Vec<u8>, PersistError>)
    ensures
        r == Err::<Vec<u8>, PersistError>(PersistError::MissingKey) <==> store@.admin is None,
        store@.admin is Some ==> exists|v: SnapshotView| #[trigger]
            pictures(v, store@) && (match r {
                Ok(plaintext) => sealable(encoded(v)) && plaintext@ == encoded(v),
                Err(e) => e == PersistError::Encryption && !sealable(encoded(v)),
            }),
{
    if store.credential().is_none() {
        return Err(PersistError::MissingKey);
    }
    let snapshot = store.snapshot();
    let plaintext = serialize(&snapshot);
    proof {
        lemma_snapshot_view(snapshot);
        assert(pictures(snapshot.deep_view(), store@));
    }
    if !is_sealable(plaintext.as_slice()) {
        return Err(PersistError::Encryption);
    }
    Ok(plaintext)
}

/// Seals the serialized tables of the store under the administrator's
/// key, with the given nonce.
fn seal_tables(store: &Store, plaintext: &[u8], nonce: &[u8], Ghost(v): Ghost<SnapshotView>) -> (r:
    Result<Vec<u8>, PersistError>)
    requires
        nonce@.len() == NONCE_LEN,
        store@.admin is Some,
        pictures(v, store@),
        sealable(encoded(v)),
        plaintext@ == encoded(v),
    ensures
        r matches Ok(blob) && blob@ == sealed(
            encoded(v),
            store@.admin->0.key,
            store@.admin->0.salt,
            nonce@,
        ),
        r matches Ok(blob) ==> forall|password: Seq<u8>|
            store@.admin_unlocks(password) ==> #[trigger] restores(blob@, password, store@),
{
    let (salt, key) = match store.credential() {
        Some(found) => found,
        None => {
            // Not reached: there is a credential.
            return Err(PersistError::MissingKey);
        },
    };
    let r = encrypt_with_nonce(plaintext, key.as_slice(), salt.as_slice(), nonce);
    proof {
        lemma_decode_encode(v);
        match &r {
            Ok(blob) => {
                assert forall|password: Seq<u8>|
                    store@.admin_unlocks(password) implies #[trigger] restores(
                    blob@,
                    password,
                    store@,
                ) by {
                    assert(opened(blob@, password) == Ok::<Seq<u8>, PersistError>(plaintext@));
                }
            },
            Err(_) => {},
        }
    }
    r
}

/// Serializes the three tables of the store and seals them under the
/// administrator's key, with the given nonce.
///
/// Without a credential there is no key, and that is the only case in
/// which the key is missed. With one, the save succeeds exactly when the
/// serialized tables are within what the cipher takes; the file is then
/// the salt, the nonce and the sealed serialization, and it restores the
/// tables under every password that derives the credential's key.
pub fn save_state_with(store: &Store, nonce: &[u8]) -> (r: Result<Vec<u8>, PersistError>)
    requires
        nonce@.len() == NONCE_LEN,
    ensures
        r == Err::<Vec<u8>, PersistError>(PersistError::MissingKey) <==> store@.admin is None,
        store@.admin is Some ==> exists|v: SnapshotView| #[trigger]
            pictures(v, store@) && (match r {
                Ok(blob) => sealable(encoded(v)) && blob@ == sealed(
                    encoded(v),
                    store@.admin->0.key,
                    store@.admin->0.salt,
                    nonce@,
                ),
                Err(e) => e == PersistError::Encryption && !sealable(encoded(v)),
            }),
        r matches Ok(blob) ==> forall|password: Seq<u8>|
            store@.admin_unlocks(password) ==> #[trigger] restores(blob@, password, store@),
{
    let plaintext = match sealable_tables(store) {
        Ok(plaintext) => plaintext,
        Err(e) => {
            return Err(e);
        },
    };
    let ghost v = choose|v: SnapshotView| #[trigger]
        pictures(v, store@) && sealable(encoded(v)) && plaintext@ == encoded(v);
    let r = seal_tables(store, plaintext.as_slice(), nonce, Ghost(v));
    proof {
        assert(pictures(v, store@));
    }
    r
}

/// Serializes the three tables of the store and seals them under the
/// administrator's key, with a fresh random nonce.
///
/// Without a credential there is no key, and that is the only case in
/// which the key is missed. With one, serialized tables beyond what the
/// cipher takes are refused, and nothing else is; within it, the save
/// fails only if the random source does. The file that comes out is the
/// salt, some nonce and the sealed serialization, and restores the tables
/// under every password that derives the credential's key.
pub fn save_state(store: &Store) -> (r: Result<Vec<u8>, PersistError>)
    ensures
        r == Err::<Vec<u8>, PersistError>(PersistError::MissingKey) <==> store@.admin is None,
        store@.admin is Some ==> exists|v: SnapshotView| #[trigger]
            pictures(v, store@) && (match r {
                Ok(blob) => sealable(encoded(v)) && exists|nonce: Seq<u8>|
                    nonce.len() == NONCE_LEN && blob@ == #[trigger] sealed(
                        encoded(v),
                        store@.admin->0.key,
                        store@.admin->0.salt,
                        nonce,
                    ),
                Err(e) => if sealable(encoded(v)) {
                    e == PersistError::Entropy
                } else {
                    e == PersistError::Encryption
                },
            }),
        r matches Ok(blob) ==> forall|password: Seq<u8>|
            store@.admin_unlocks(password) ==> #[trigger] restores(blob@, password, store@),
{
    let plaintext = match sealable_tables(store) {
        Ok(plaintext) => plaintext,
        Err(e) => {
            return Err(e);
        },
    };
    let ghost v = choose|v: SnapshotView| #[trigger]
        pictures(v, store@) && sealable(encoded(v)) && plaintext@ == encoded(v);
    proof {
        assert(pictures(v, store@));
    }
    match os_random(NONCE_LEN) {
        Ok(nonce) => seal_tables(store, plaintext.as_slice(), nonce.as_slice(), Ghost(v)),
        Err(_) => Err(PersistError::Entropy),
    }
}

/// Loads the state from the bytes of the snapshot file, if there is one.
///
/// No file is no error: the store stays as it is. A file that does not
/// open under the password, does not hold a snapshot, or holds one that
/// breaks an invariant of the store is an error, and the store stays as it
/// is. Otherwise the three tables of the store are replaced by those of
/// the file; nothing of the old ones remains.
pub fn load_state(store: &mut Store, file: Option<&[u8]>, raw_pwd: &[u8]) -> (r: Result<
    (),
    PersistError,
>)
    ensures
        file is None ==> r is Ok && final(store)@ == old(store)@,
        file matches Some(blob) ==> (match loaded(blob@, raw_pwd@) {
            Ok(v) => r is Ok && final(store)@ == v.state().with_admin_of(old(store)@),
            Err(e) => r == Err::<(), PersistError>(e) && final(store)@ == old(store)@,
        }),
        final(store)@.consistent(),
{
    let blob = match file {
        Some(blob) => blob,
        None => {
            store.recall_invariant();
            return Ok(());
        },
    };
    let plaintext = match decrypt_state(blob, raw_pwd) {
        Ok(plaintext) => plaintext,
        Err(e) => {
            store.recall_invariant();
            return Err(e);
        },
    };
    let snapshot = match deserialize(plaintext.as_slice()) {
        Ok(snapshot) => snapshot,
        Err(e) => {
            store.recall_invariant();
            return Err(e);
        },
    };
    proof {
        lemma_snapshot_view(snapshot);
    }
    match store.restore(snapshot) {
        Ok(()) => Ok(()),
        Err(_) => Err(PersistError::Inconsistent),
    }
}

/// The bytes of the snapshot file, if there is one.
pub open spec fn file_bytes(file: Option<&[u8]>) -> Option<Seq<u8>> {
    match file {
        Some(blob) => Some(blob@),
        None => None,
    }
}

/// What starting up comes to, with the salt that was drawn for the
/// credential: the state of the new store, or why there is none.
///
/// A salt of another length than 32 bytes and a password that the key
/// derivation refuses end it before the file is looked at.
pub open spec fn started(password: Seq<u8>, file: Option<Seq<u8>>, salt: Seq<u8>) -> Result<
    StoreState,
    PersistError,
> {
    if salt.len() != SALT_LEN || !kdf_accepts(password, salt) {
        Err(PersistError::KeyDerivation)
    } else {
        let fresh = StoreState::empty().with_admin(
            salt,
            hash_of(password, salt),
            key_of(password, salt),
        );
        match file {
            None => Ok(fresh),
            Some(blob) => match loaded(blob, password) {
                Err(e) => Err(e),
                Ok(v) => Ok(v.state().with_admin_of(fresh)),
            },
        }
    }
}

/// Starts up with the salt that the caller has drawn: makes a store, sets
/// the administrator's password and loads the snapshot file, if there is
/// one.
pub fn prepare_startup_with(password: &str, file: Option<&[u8]>, salt: Vec<u8>) -> (r: Result<
    Store,
    PersistError,
>)
    ensures
        r matches Ok(store) ==> store@.consistent() && started(
            password_bytes(password@),
            file_bytes(file),
            salt@,
        ) == Ok::<StoreState, PersistError>(store@),
        r matches Err(e) ==> started(password_bytes(password@), file_bytes(file), salt@) == Err::<
            StoreState,
            PersistError,
        >(e),
{
    let mut store = Store::new();
    match store.set_admin_password_with(password, salt) {
        Ok(()) => {},
        Err(_) => {
            return Err(PersistError::KeyDerivation);
        },
    }
    match load_state(&mut store, file, password.as_bytes()) {
        Ok(()) => Ok(store),
        Err(e) => Err(e),
    }
}

/// Starts up: makes a store, sets the administrator's password with a
/// fresh random salt and loads the snapshot file, if there is one.
///
/// A file that cannot be loaded is an error: no store is handed out in an
/// ambiguous state. The key derivation fails only on a password of more
/// than 2^32 - 1 bytes.
pub fn prepare_startup(password: &str, file: Option<&[u8]>) -> (r: Result<Store, PersistError>)
    ensures
        r matches Ok(store) ==> store@.consistent() && store@.admin_verifies(
            password_bytes(password@),
        ) && store@.admin_unlocks(password_bytes(password@)) && (match file {
            None => store@.with_admin_of(StoreState::empty()) == StoreState::empty(),
            Some(blob) => restores(blob@, password_bytes(password@), store@),
        }),
        r matches Ok(store) ==> exists|salt: Seq<u8>|
            salt.len() == SALT_LEN && #[trigger] started(
                password_bytes(password@),
                file_bytes(file),
                salt,
            ) == Ok::<StoreState, PersistError>(store@),
        r matches Err(e) ==> e == PersistError::Entropy || exists|salt: Seq<u8>|
            salt.len() == SALT_LEN && #[trigger] started(
                password_bytes(password@),
                file_bytes(file),
                salt,
            ) == Err::<StoreState, PersistError>(e),
        r matches Err(e) ==> e == PersistError::Entropy || (e == PersistError::KeyDerivation
            && password_bytes(password@).len() > u32::MAX) || (file matches Some(blob) && loaded(
            blob@,
            password_bytes(password@),
        ) == Err::<SnapshotView, PersistError>(e)),
        password_bytes(password@).len() > u32::MAX ==> (r matches Err(e) && (e
            == PersistError::Entropy || e == PersistError::KeyDerivation)),
{
    let salt = match os_random(SALT_LEN) {
        Ok(salt) => salt,
        Err(_) => {
            return Err(PersistError::Entropy);
        },
    };
    let ghost drawn = salt@;
    let r = prepare_startup_with(password, file, salt);
    proof {
        let outcome = started(password_bytes(password@), file_bytes(file), drawn);
        match &r {
            Ok(store) => {
                assert(outcome == Ok::<StoreState, PersistError>(store@));
            },
            Err(e) => {
                assert(outcome == Err::<StoreState, PersistError>(*e));
            },
        }
    }
    r
}

/// Where the one background writer of the snapshot file stands.
#[derive(Clone, Copy, Debug, PartialEq, Eq, Structural)]
pub enum Saver {
    /// Nothing is being written, and the file is up to date.
    Idle,
    /// A write is under way, of the state as it is now.
    Writing,
    /// A write is under way, and the state has changed since it began.
    WritingStale,
}

/// What the writer is told.
#[derive(Clone, Copy, Debug, PartialEq, Eq, Structural)]
pub enum SaveEvent {
    /// An operation changed the state in memory.
    Mutated,
    /// The write that was under way has ended, well or badly.
    Written,
}

impl Saver {
    /// A write is under way.
    pub open spec fn busy(self) -> bool {
        self != Saver::Idle
    }

    /// Where the writer stands after an event.
    pub open spec fn after(self, event: SaveEvent) -> Saver {
        match (self, event) {
            (Saver::Idle, SaveEvent::Mutated) => Saver::Writing,
            (Saver::Idle, SaveEvent::Written) => Saver::Idle,
            (Saver::Writing, SaveEvent::Mutated) => Saver::WritingStale,
            (Saver::Writing, SaveEvent::Written) => Saver::Idle,
            (Saver::WritingStale, SaveEvent::Mutated) => Saver::WritingStale,
            (Saver::WritingStale, SaveEvent::Written) => Saver::Writing,
        }
    }

    /// Whether an event makes the writer begin a write of the state as it
    /// is then.
    pub open spec fn begins_write(self, event: SaveEvent) -> bool {
        match (self, event) {
            (Saver::Idle, SaveEvent::Mutated) => true,
            (Saver::WritingStale, SaveEvent::Written) => true,
            _ => false,
        }
    }

    /// Takes an event: says where the writer stands then, and whether to
    /// begin a write now.
    ///
    /// A change while nothing is written begins a write. Changes during a
    /// write are remembered as one, and one write follows when the write
    /// under way has ended.
    pub fn step(self, event: SaveEvent) -> (r: (Saver, bool))
        ensures
            r.0 == self.after(event),
            r.1 == self.begins_write(event),
    {
        match self {
            Saver::Idle => match event {
                SaveEvent::Mutated => (Saver::Writing, true),
                SaveEvent::Written => (Saver::Idle, false),
            },
            Saver::Writing => match event {
                SaveEvent::Mutated => (Saver::WritingStale, false),
                SaveEvent::Written => (Saver::Idle, false),
            },
            Saver::WritingStale => match event {
                SaveEvent::Mutated => (Saver::WritingStale, false),
                SaveEvent::Written => (Saver::Writing, true),
            },
        }
    }
}

/// Where the writer stands after `n` changes in a row.
pub open spec fn after_burst(saver: Saver, n: nat) -> Saver
    decreases n,
{
    if n == 0 {
        saver
    } else {
        after_burst(saver, (n - 1) as nat).after(SaveEvent::Mutated)
    }
}

/// A change begins a write only while none is under way, a change never
/// leaves the writer idle, and the writer is writing the current state
/// exactly after an event that begins a write.
pub proof fn lemma_one_write_at_a_time(saver: Saver, event: SaveEvent)
    ensures
        saver.begins_write(SaveEvent::Mutated) ==> !saver.busy(),
        saver.after(SaveEvent::Mutated).busy(),
        saver.begins_write(event) <==> saver.after(event) == Saver::Writing,
{
}

/// However many changes fall into a write, one write follows when it has
/// ended, and the writer is idle when that one has ended.
pub proof fn lemma_bursts_coalesce(n: nat)
    requires
        n >= 1,
    ensures
        after_burst(Saver::Writing, n) == Saver::WritingStale,
        after_burst(Saver::Writing, n).begins_write(SaveEvent::Written),
        after_burst(Saver::Writing, n).after(SaveEvent::Written).after(SaveEvent::Written)
            == Saver::Idle,
    decreases n,
{
    if n == 1 {
        assert(after_burst(Saver::Writing, 0) == Saver::Writing);
    } else {
        lemma_bursts_coalesce((n - 1) as nat);
    }
}

} // verus!
