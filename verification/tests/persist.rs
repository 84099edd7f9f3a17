use apollo::cipher::{decrypt_state, HEADER_LEN};
use apollo::error::{PersistError, StoreError};
use apollo::kdf::derive_key;
use apollo::models::{Puzzle, PuzzleEntry, Session, Team};
use apollo::persist::{
    load_state, prepare_startup, prepare_startup_with, save_state, save_state_with,
};
use apollo::snapshot::{deserialize, serialize, Snapshot};
use apollo::state::SubmitOutcome;
use apollo::store::Store;

fn entry(id: &str, solution: &str, value: u32) -> PuzzleEntry {
    PuzzleEntry { id: id.to_string(), puzzle: Puzzle { solution: solution.to_string(), value } }
}

fn busy_store(password: &str) -> (Store, u128) {
    let mut store = prepare_startup(password, None).unwrap();
    store.set_solution(vec![entry("p1", "42", 10), entry("p2", "x", 5)], password).unwrap();
    let alice = store.join("alice").unwrap();
    let bob = store.join("bob").unwrap();
    assert_eq!(store.submit_solution(alice, "p1", "42"), Ok(SubmitOutcome::Accepted));
    assert_eq!(store.logout(bob, None), Ok(()));
    (store, alice)
}

#[test]
fn saved_state_is_loaded_again() {
    let (store, alice) = busy_store("pw");
    let blob = save_state(&store).unwrap();
    let restarted = prepare_startup("pw", Some(&blob)).unwrap();
    assert_eq!(restarted.snapshot(), store.snapshot());
    assert_eq!(restarted.auth_state(alice), Ok("alice".to_string()));
    assert_eq!(restarted.read_scoreboard(), store.read_scoreboard());
}

#[test]
fn loaded_store_goes_on_where_the_saved_one_stopped() {
    let (store, alice) = busy_store("pw");
    let blob = save_state(&store).unwrap();
    let mut restarted = prepare_startup("pw", Some(&blob)).unwrap();
    assert_eq!(restarted.submit_solution(alice, "p1", "42"), Err(StoreError::Conflict));
    assert_eq!(restarted.submit_solution(alice, "p2", "x"), Ok(SubmitOutcome::Accepted));
    assert_eq!(restarted.join("alice"), Err(StoreError::Conflict));
    assert!(restarted.join("bob").is_ok());
    assert_eq!(restarted.set_solution(vec![entry("p2", "y", 1)], "pw"), Err(StoreError::Conflict));
    assert_eq!(restarted.set_solution(vec![entry("p3", "y", 1)], "pw"), Ok(()));
    let again = save_state(&restarted).unwrap();
    let third = prepare_startup("pw", Some(&again)).unwrap();
    assert_eq!(third.snapshot(), restarted.snapshot());
}

#[test]
fn empty_store_is_saved_and_loaded() {
    let store = prepare_startup("pw", None).unwrap();
    let blob = save_state(&store).unwrap();
    assert_eq!(blob.len(), HEADER_LEN + 4 + 16);
    let restarted = prepare_startup("pw", Some(&blob)).unwrap();
    assert_eq!(restarted.snapshot(), Snapshot { teams: vec![], puzzles: vec![], sessions: vec![] });
}

#[test]
fn missing_file_starts_empty() {
    let store = prepare_startup("pw", None).unwrap();
    let s = store.snapshot();
    assert!(s.teams.is_empty() && s.puzzles.is_empty() && s.sessions.is_empty());
    let mut other = Store::new();
    assert_eq!(load_state(&mut other, None, b"anything"), Ok(()));
}

#[test]
fn wrong_password_at_startup_is_fatal() {
    let (store, _) = busy_store("pw");
    let blob = save_state(&store).unwrap();
    assert_eq!(prepare_startup("other", Some(&blob)).err(), Some(PersistError::Decryption));
    assert_eq!(prepare_startup("", Some(&blob)).err(), Some(PersistError::Decryption));
}

#[test]
fn damaged_file_at_startup_is_fatal() {
    let (store, _) = busy_store("pw");
    let blob = save_state(&store).unwrap();
    assert_eq!(prepare_startup("pw", Some(&blob[..10])).err(), Some(PersistError::CorruptHeader));
    assert_eq!(prepare_startup("pw", Some(&[])).err(), Some(PersistError::CorruptHeader));
    let mut flipped = blob.clone();
    flipped[60] ^= 0x80;
    assert_eq!(prepare_startup("pw", Some(&flipped)).err(), Some(PersistError::Decryption));
    let mut salted = blob.clone();
    salted[0] ^= 1;
    assert_eq!(prepare_startup("pw", Some(&salted)).err(), Some(PersistError::Decryption));
}

#[test]
fn failed_load_changes_nothing() {
    let (mut store, _) = busy_store("pw");
    let before = store.snapshot();
    let (other, _) = busy_store("pw");
    let blob = save_state(&other).unwrap();
    assert_eq!(load_state(&mut store, Some(&blob), b"bad"), Err(PersistError::Decryption));
    assert_eq!(load_state(&mut store, Some(&blob[..20]), b"pw"), Err(PersistError::CorruptHeader));
    assert_eq!(store.snapshot(), before);
    assert_eq!(store.set_solution(vec![], "pw"), Ok(()));
}

#[test]
fn load_replaces_and_does_not_merge() {
    let mut old = prepare_startup("pw", None).unwrap();
    old.set_solution(vec![entry("stale", "s", 1)], "pw").unwrap();
    let stale = old.join("stale-team").unwrap();
    let (fresh, alice) = busy_store("pw");
    let blob = save_state(&fresh).unwrap();
    assert_eq!(load_state(&mut old, Some(&blob), b"pw"), Ok(()));
    assert_eq!(old.snapshot(), fresh.snapshot());
    assert_eq!(old.auth_state(stale), Err(StoreError::NotFound));
    assert_eq!(old.auth_state(alice), Ok("alice".to_string()));
    assert_eq!(old.set_solution(vec![], "pw"), Ok(()));
}

#[test]
fn file_that_is_no_snapshot_is_malformed() {
    let salt = [3u8; 32];
    let key = derive_key(b"pw", &salt).unwrap();
    let blob = apollo::cipher::encrypt(b"not a snapshot", &key, &salt).unwrap();
    assert_eq!(prepare_startup("pw", Some(&blob)).err(), Some(PersistError::Malformed));
    let blob = apollo::cipher::encrypt(b"", &key, &salt).unwrap();
    assert_eq!(prepare_startup("pw", Some(&blob)).err(), Some(PersistError::Malformed));
}

#[test]
fn snapshot_that_breaks_an_invariant_is_refused() {
    let salt = [3u8; 32];
    let key = derive_key(b"pw", &salt).unwrap();
    let cases = vec![
        Snapshot {
            teams: vec![
                Team { name: "a".into(), solved: vec![] },
                Team { name: "a".into(), solved: vec![] },
            ],
            puzzles: vec![],
            sessions: vec![],
        },
        Snapshot {
            teams: vec![Team { name: "a".into(), solved: vec!["p".into(), "p".into()] }],
            puzzles: vec![],
            sessions: vec![],
        },
        Snapshot {
            teams: vec![Team { name: "admin".into(), solved: vec![] }],
            puzzles: vec![],
            sessions: vec![],
        },
        Snapshot {
            teams: vec![],
            puzzles: vec![entry("p", "1", 1), entry("p", "2", 2)],
            sessions: vec![],
        },
        Snapshot {
            teams: vec![],
            puzzles: vec![],
            sessions: vec![Session { id: 1, username: "ghost".into() }],
        },
        Snapshot {
            teams: vec![Team { name: "a".into(), solved: vec![] }],
            puzzles: vec![],
            sessions: vec![
                Session { id: 1, username: "a".into() },
                Session { id: 2, username: "a".into() },
            ],
        },
        Snapshot {
            teams: vec![
                Team { name: "a".into(), solved: vec![] },
                Team { name: "b".into(), solved: vec![] },
            ],
            puzzles: vec![],
            sessions: vec![
                Session { id: 1, username: "a".into() },
                Session { id: 1, username: "b".into() },
            ],
        },
    ];
    for s in cases {
        assert!(!s.is_valid());
        let blob = apollo::cipher::encrypt(&serialize(&s), &key, &salt).unwrap();
        assert_eq!(prepare_startup("pw", Some(&blob)).err(), Some(PersistError::Inconsistent));
        let mut store = Store::new();
        assert_eq!(store.restore(s), Err(StoreError::BadRequest));
    }
}

#[test]
fn save_needs_the_admin_password() {
    let store = Store::new();
    assert_eq!(save_state(&store), Err(PersistError::MissingKey));
    assert_eq!(save_state_with(&store, &[0u8; 24]), Err(PersistError::MissingKey));
}

#[test]
fn saved_file_holds_salt_nonce_and_the_sealed_snapshot() {
    let mut store = Store::new();
    store.set_admin_password_with("pw", vec![5u8; 32]).unwrap();
    store.join_with("alice", 9).unwrap();
    let nonce = [6u8; 24];
    let blob = save_state_with(&store, &nonce).unwrap();
    assert_eq!(&blob[..32], &[5u8; 32][..]);
    assert_eq!(&blob[32..56], &nonce[..]);
    let plain = decrypt_state(&blob, b"pw").unwrap();
    assert_eq!(plain, serialize(&store.snapshot()));
    assert_eq!(blob.len(), HEADER_LEN + plain.len() + 16);
    assert_eq!(deserialize(&plain), Ok(store.snapshot()));
    assert_eq!(save_state_with(&store, &nonce), Ok(blob));
}

#[test]
fn each_save_draws_a_new_nonce_under_the_same_salt() {
    let (store, _) = busy_store("pw");
    let a = save_state(&store).unwrap();
    let b = save_state(&store).unwrap();
    assert_eq!(&a[..32], &b[..32]);
    assert_ne!(&a[32..56], &b[32..56]);
}

#[test]
fn snapshot_and_restore_agree() {
    let (store, alice) = busy_store("pw");
    let mut other = Store::new();
    assert_eq!(other.restore(store.snapshot()), Ok(()));
    assert_eq!(other.snapshot(), store.snapshot());
    assert_eq!(other.auth_state(alice), Ok("alice".to_string()));
    assert_eq!(other.set_solution(vec![], "pw"), Err(StoreError::Unauthorized));
}

#[test]
fn startup_with_a_given_salt() {
    let store = prepare_startup_with("pw", None, vec![4u8; 32]).unwrap();
    assert_eq!(store.snapshot(), Snapshot { teams: vec![], puzzles: vec![], sessions: vec![] });
    let blob = save_state_with(&store, &[1u8; 24]).unwrap();
    assert_eq!(&blob[..32], &[4u8; 32][..]);
    let again = prepare_startup_with("pw", Some(&blob), vec![5u8; 32]).unwrap();
    let second = save_state_with(&again, &[1u8; 24]).unwrap();
    assert_eq!(&second[..32], &[5u8; 32][..]);
    assert_eq!(decrypt_state(&second, b"pw"), decrypt_state(&blob, b"pw"));
}

#[test]
fn startup_refuses_a_salt_of_another_length() {
    assert_eq!(
        prepare_startup_with("pw", None, vec![4u8; 31]).err(),
        Some(PersistError::KeyDerivation)
    );
    assert_eq!(
        prepare_startup_with("pw", None, vec![]).err(),
        Some(PersistError::KeyDerivation)
    );
    assert_eq!(
        prepare_startup_with("pw", Some(&[0u8; 10]), vec![4u8; 32]).err(),
        Some(PersistError::CorruptHeader)
    );
}

#[test]
fn save_succeeds_whenever_a_password_is_set() {
    let (store, _) = busy_store("pw");
    for _ in 0..3 {
        let blob = save_state(&store).unwrap();
        assert_eq!(decrypt_state(&blob, b"pw"), Ok(serialize(&store.snapshot())));
    }
    assert!(save_state_with(&store, &[0u8; 24]).is_ok());
    let empty = prepare_startup("", None).unwrap();
    assert!(save_state(&empty).is_ok());
}
