use apollo::error::StoreError;
use apollo::models::{Puzzle, PuzzleEntry};
use apollo::state::SubmitOutcome;
use apollo::store::Store;

fn entry(id: &str, solution: &str, value: u32) -> PuzzleEntry {
    PuzzleEntry { id: id.to_string(), puzzle: Puzzle { solution: solution.to_string(), value } }
}

fn store_with(password: &str, puzzles: Vec<PuzzleEntry>) -> Store {
    let mut store = Store::new();
    assert_eq!(store.set_admin_password(password), Ok(()));
    assert_eq!(store.set_solution(puzzles, password), Ok(()));
    store
}

#[test]
fn second_join_conflicts_and_rejoin_keeps_progress() {
    let mut store = store_with("pw", vec![entry("p1", "42", 10)]);
    let first = store.join("alice").unwrap();
    assert_eq!(store.join("alice"), Err(StoreError::Conflict));
    assert_eq!(store.submit_solution(first, "p1", "42"), Ok(SubmitOutcome::Accepted));
    assert_eq!(store.logout(first, None), Ok(()));
    let second = store.join("alice").unwrap();
    assert_ne!(first, second);
    let (teams, _) = store.get_game_state();
    assert_eq!(teams.len(), 1);
    assert_eq!(teams[0].name, "alice");
    assert_eq!(teams[0].solved, vec!["p1".to_string()]);
    assert_eq!(store.auth_state(second), Ok("alice".to_string()));
    assert_eq!(store.auth_state(first), Err(StoreError::NotFound));
}

#[test]
fn right_answer_is_accepted_once() {
    let mut store = store_with("pw", vec![entry("p1", "42", 10)]);
    let sid = store.join("alice").unwrap();
    assert_eq!(store.submit_solution(sid, "p1", "42"), Ok(SubmitOutcome::Accepted));
    assert_eq!(store.submit_solution(sid, "p1", "42"), Err(StoreError::Conflict));
    let (teams, _) = store.get_game_state();
    assert_eq!(teams[0].solved, vec!["p1".to_string()]);
}

#[test]
fn wrong_answer_changes_nothing() {
    let mut store = store_with("pw", vec![entry("p1", "42", 10)]);
    let sid = store.join("alice").unwrap();
    assert_eq!(store.submit_solution(sid, "p1", "41"), Ok(SubmitOutcome::WrongAnswer));
    let (teams, _) = store.get_game_state();
    assert_eq!(teams[0].solved, Vec::<String>::new());
    assert_eq!(store.submit_solution(sid, "p1", "42"), Ok(SubmitOutcome::Accepted));
    assert_eq!(store.submit_solution(sid, "p1", "41"), Ok(SubmitOutcome::WrongAnswer));
    let (teams, _) = store.get_game_state();
    assert_eq!(teams[0].solved, vec!["p1".to_string()]);
}

#[test]
fn solution_is_compared_exactly() {
    let mut store = store_with("pw", vec![entry("p1", "Answer", 1)]);
    let sid = store.join("alice").unwrap();
    assert_eq!(store.submit_solution(sid, "p1", "answer"), Ok(SubmitOutcome::WrongAnswer));
    assert_eq!(store.submit_solution(sid, "p1", "Answer "), Ok(SubmitOutcome::WrongAnswer));
    assert_eq!(store.submit_solution(sid, "p1", ""), Ok(SubmitOutcome::WrongAnswer));
    assert_eq!(store.submit_solution(sid, "p1", "Answer"), Ok(SubmitOutcome::Accepted));
}

#[test]
fn submit_checks_session_then_puzzle() {
    let mut store = store_with("pw", vec![entry("p1", "42", 10)]);
    let sid = store.join("alice").unwrap();
    assert_eq!(store.submit_solution(sid ^ 1, "p1", "42"), Err(StoreError::Unauthorized));
    assert_eq!(store.submit_solution(sid ^ 1, "nope", "42"), Err(StoreError::Unauthorized));
    assert_eq!(store.submit_solution(sid, "nope", "42"), Err(StoreError::NotFound));
}

#[test]
fn puzzles_are_write_once() {
    let mut store = Store::new();
    assert_eq!(store.set_admin_password("pw"), Ok(()));
    assert_eq!(store.set_solution(vec![entry("p2", "x", 5)], "pw"), Ok(()));
    assert_eq!(
        store.set_solution(vec![entry("p3", "z", 1), entry("p2", "y", 7)], "pw"),
        Err(StoreError::Conflict)
    );
    let (_, puzzles) = store.get_game_state();
    assert_eq!(puzzles, vec![("p2".to_string(), 5)]);
    let sid = store.join("alice").unwrap();
    assert_eq!(store.submit_solution(sid, "p2", "y"), Ok(SubmitOutcome::WrongAnswer));
    assert_eq!(store.submit_solution(sid, "p3", "z"), Err(StoreError::NotFound));
    assert_eq!(store.submit_solution(sid, "p2", "x"), Ok(SubmitOutcome::Accepted));
}

#[test]
fn batch_with_a_repeated_puzzle_is_refused_whole() {
    let mut store = Store::new();
    assert_eq!(store.set_admin_password("pw"), Ok(()));
    assert_eq!(
        store.set_solution(vec![entry("a", "1", 1), entry("b", "2", 2), entry("a", "3", 3)], "pw"),
        Err(StoreError::Conflict)
    );
    assert_eq!(store.get_game_state().1, Vec::<(String, u32)>::new());
    assert_eq!(store.set_solution(vec![entry("a", "1", 1), entry("b", "2", 2)], "pw"), Ok(()));
    assert_eq!(store.set_solution(Vec::new(), "pw"), Ok(()));
    assert_eq!(store.get_game_state().1, vec![("a".to_string(), 1), ("b".to_string(), 2)]);
}

#[test]
fn set_solution_needs_the_password() {
    let mut store = Store::new();
    assert_eq!(store.set_solution(vec![entry("p", "s", 1)], "pw"), Err(StoreError::Unauthorized));
    assert_eq!(store.set_solution(Vec::new(), ""), Err(StoreError::Unauthorized));
    assert_eq!(store.set_admin_password("pw"), Ok(()));
    assert_eq!(store.set_solution(vec![entry("p", "s", 1)], "pW"), Err(StoreError::Unauthorized));
    assert_eq!(store.set_solution(vec![entry("p", "s", 1)], ""), Err(StoreError::Unauthorized));
    assert_eq!(store.get_game_state().1, Vec::<(String, u32)>::new());
    assert_eq!(store.set_solution(vec![entry("p", "s", 1)], "pw"), Ok(()));
}

#[test]
fn unauthorized_comes_before_conflict() {
    let mut store = store_with("pw", vec![entry("p", "s", 1)]);
    assert_eq!(store.set_solution(vec![entry("p", "t", 2)], "bad"), Err(StoreError::Unauthorized));
    assert_eq!(store.set_solution(vec![entry("p", "t", 2)], "pw"), Err(StoreError::Conflict));
}

#[test]
fn admin_password_is_set_once() {
    let mut store = Store::new();
    assert_eq!(store.set_admin_password("first"), Ok(()));
    assert_eq!(store.set_admin_password("second"), Err(StoreError::Conflict));
    assert_eq!(store.set_admin_password("first"), Err(StoreError::Conflict));
    assert_eq!(store.set_solution(Vec::new(), "second"), Err(StoreError::Unauthorized));
    assert_eq!(store.set_solution(Vec::new(), "first"), Ok(()));
}

#[test]
fn admin_salt_must_be_thirty_two_bytes() {
    let mut store = Store::new();
    assert_eq!(store.set_admin_password_with("pw", vec![1u8; 31]), Err(StoreError::BadRequest));
    assert_eq!(store.set_admin_password_with("pw", vec![1u8; 33]), Err(StoreError::BadRequest));
    assert_eq!(store.set_solution(Vec::new(), "pw"), Err(StoreError::Unauthorized));
    assert_eq!(store.set_admin_password_with("pw", vec![1u8; 32]), Ok(()));
    assert_eq!(store.set_admin_password_with("pw", vec![1u8; 32]), Err(StoreError::Conflict));
    assert_eq!(store.set_solution(Vec::new(), "pw"), Ok(()));
}

#[test]
fn reserved_name_cannot_join() {
    let mut store = Store::new();
    assert_eq!(store.join("admin"), Err(StoreError::Conflict));
    assert_eq!(store.join_with("admin", 7), Err(StoreError::Conflict));
    assert!(store.join("Admin").is_ok());
    assert!(store.join("admin ").is_ok());
    assert_eq!(store.get_game_state().0.len(), 2);
}

#[test]
fn join_with_refuses_an_identifier_in_use() {
    let mut store = Store::new();
    assert_eq!(store.join_with("alice", 7), Ok(()));
    assert_eq!(store.join_with("bob", 7), Err(StoreError::Internal));
    assert_eq!(store.join_with("alice", 8), Err(StoreError::Conflict));
    assert_eq!(store.join_with("bob", 8), Ok(()));
    assert_eq!(store.auth_state(7), Ok("alice".to_string()));
    assert_eq!(store.auth_state(8), Ok("bob".to_string()));
    assert_eq!(store.get_game_state().0.len(), 2);
}

#[test]
fn session_ids_differ() {
    let mut store = Store::new();
    let a = store.join("a").unwrap();
    let b = store.join("b").unwrap();
    let c = store.join("c").unwrap();
    assert!(a != b && b != c && a != c);
}

#[test]
fn logout_unknown_session_is_not_found() {
    let mut store = Store::new();
    assert_eq!(store.logout(1, None), Err(StoreError::NotFound));
    assert_eq!(store.logout(1, Some(true)), Err(StoreError::NotFound));
    let sid = store.join("alice").unwrap();
    assert_eq!(store.logout(sid, Some(false)), Ok(()));
    assert_eq!(store.logout(sid, Some(false)), Err(StoreError::NotFound));
    assert_eq!(store.get_game_state().0.len(), 1);
}

#[test]
fn wipe_deletes_the_team() {
    let mut store = store_with("pw", vec![entry("p1", "42", 10)]);
    let alice = store.join("alice").unwrap();
    let bob = store.join("bob").unwrap();
    assert_eq!(store.submit_solution(alice, "p1", "42"), Ok(SubmitOutcome::Accepted));
    assert_eq!(store.submit_solution(bob, "p1", "42"), Ok(SubmitOutcome::Accepted));
    assert_eq!(store.logout(alice, Some(true)), Ok(()));
    let (teams, puzzles) = store.get_game_state();
    assert_eq!(teams.len(), 1);
    assert_eq!(teams[0].name, "bob");
    assert_eq!(teams[0].solved, vec!["p1".to_string()]);
    assert_eq!(puzzles.len(), 1);
    let again = store.join("alice").unwrap();
    assert_eq!(store.submit_solution(again, "p1", "42"), Ok(SubmitOutcome::Accepted));
    assert_eq!(store.auth_state(bob), Ok("bob".to_string()));
}

#[test]
fn game_state_hides_solutions() {
    let store = store_with("pw", vec![entry("p1", "secret", 10), entry("p0", "other", 3)]);
    let (teams, puzzles) = store.get_game_state();
    assert!(teams.is_empty());
    assert_eq!(puzzles, vec![("p1".to_string(), 10), ("p0".to_string(), 3)]);
}

#[test]
fn one_of_a_hundred_callers_is_accepted() {
    let store = store_with("pw", vec![entry("p1", "42", 10)]);
    let shared = std::sync::Arc::new(std::sync::Mutex::new(store));
    let sid = shared.lock().unwrap().join("alice").unwrap();
    let callers: Vec<_> = (0..100).map(|_| std::sync::Arc::clone(&shared)).collect();
    let mut accepted = 0;
    let mut conflicts = 0;
    for caller in callers {
        let outcome = caller.lock().unwrap().submit_solution(sid, "p1", "42");
        match outcome {
            Ok(SubmitOutcome::Accepted) => accepted += 1,
            Err(StoreError::Conflict) => conflicts += 1,
            other => panic!("unexpected outcome {:?}", other),
        }
    }
    assert_eq!(accepted, 1);
    assert_eq!(conflicts, 99);
    assert_eq!(shared.lock().unwrap().get_game_state().0[0].solved, vec!["p1".to_string()]);
}
