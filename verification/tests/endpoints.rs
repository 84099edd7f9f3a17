use apollo::endpoints::{auth_state, join, logout, submit_solution};
use apollo::error::StoreError;
use apollo::models::{Puzzle, PuzzleEntry};
use apollo::session::{
    expired_cookie, extract_sid_cookie, fresh_session_id, session_cookie, session_cookie_value,
    session_id_from,
};
use apollo::state::SubmitOutcome;
use apollo::store::Store;

fn cookie_of(header: &str) -> String {
    let rest = header.strip_prefix("sid=").unwrap();
    rest.split(';').next().unwrap().to_string()
}

fn store_with_puzzle() -> Store {
    let mut store = Store::new();
    store.set_admin_password("pw").unwrap();
    let p = PuzzleEntry { id: "p1".into(), puzzle: Puzzle { solution: "42".into(), value: 10 } };
    store.set_solution(vec![p], "pw").unwrap();
    store
}

#[test]
fn session_cookie_has_the_hyphenated_identifier_and_its_flags() {
    let sid = 0xa1a2a3a4_b1b2_c1c2_d1d2_d3d4d5d6d7d8u128;
    assert_eq!(session_cookie_value(sid), "a1a2a3a4-b1b2-c1c2-d1d2-d3d4d5d6d7d8");
    assert_eq!(
        session_cookie(sid),
        "sid=a1a2a3a4-b1b2-c1c2-d1d2-d3d4d5d6d7d8;HttpOnly;Secure;SameSite=Strict"
    );
    assert_eq!(session_cookie_value(0), "00000000-0000-0000-0000-000000000000");
    assert_eq!(expired_cookie(), "sid=;Expires=Thu, 01 Jan 1970 00:00:00 GMT");
}

#[test]
fn cookie_value_is_read_back() {
    for sid in [0u128, 1, u128::MAX, 0xa1a2a3a4_b1b2_c1c2_d1d2_d3d4d5d6d7d8] {
        let text = session_cookie_value(sid);
        assert_eq!(extract_sid_cookie(Some(&text)), Ok(sid));
    }
}

#[test]
fn cookie_is_read_in_the_forms_of_a_uuid() {
    let sid = 0xa1a2a3a4_b1b2_c1c2_d1d2_d3d4d5d6d7d8u128;
    assert_eq!(extract_sid_cookie(Some("a1a2a3a4b1b2c1c2d1d2d3d4d5d6d7d8")), Ok(sid));
    assert_eq!(extract_sid_cookie(Some("A1A2A3A4-B1B2-C1C2-D1D2-D3D4D5D6D7D8")), Ok(sid));
    assert_eq!(extract_sid_cookie(Some("{a1a2a3a4-b1b2-c1c2-d1d2-d3d4d5d6d7d8}")), Ok(sid));
}

#[test]
fn missing_cookie_is_unauthorized_and_bad_cookie_a_bad_request() {
    assert_eq!(extract_sid_cookie(None), Err(StoreError::Unauthorized));
    assert_eq!(extract_sid_cookie(Some("")), Err(StoreError::BadRequest));
    assert_eq!(extract_sid_cookie(Some("not-a-uuid")), Err(StoreError::BadRequest));
    assert_eq!(
        extract_sid_cookie(Some("a1a2a3a4-b1b2-c1c2-d1d2-d3d4d5d6d7dg")),
        Err(StoreError::BadRequest)
    );
}

#[test]
fn join_hands_out_a_cookie_that_authenticates() {
    let mut store = store_with_puzzle();
    let header = join(&mut store, None, "alice").unwrap();
    assert!(header.starts_with("sid="));
    assert!(header.ends_with(";HttpOnly;Secure;SameSite=Strict"));
    let cookie = cookie_of(&header);
    assert_eq!(auth_state(&store, Some(&cookie)), Ok("alice".to_string()));
    assert_eq!(
        submit_solution(&mut store, Some(&cookie), "p1", "42"),
        Ok(SubmitOutcome::Accepted)
    );
    assert_eq!(
        submit_solution(&mut store, Some(&cookie), "p1", "42"),
        Err(StoreError::Conflict)
    );
}

#[test]
fn join_with_an_active_cookie_is_a_conflict() {
    let mut store = Store::new();
    let cookie = cookie_of(&join(&mut store, None, "alice").unwrap());
    assert_eq!(join(&mut store, Some(&cookie), "bob"), Err(StoreError::Conflict));
    assert_eq!(join(&mut store, Some(&cookie), "alice"), Err(StoreError::Conflict));
    assert_eq!(store.get_game_state().0.len(), 1);
    assert_eq!(join(&mut store, None, "alice"), Err(StoreError::Conflict));
    assert_eq!(join(&mut store, None, "admin"), Err(StoreError::Conflict));
}

#[test]
fn join_with_a_stale_or_broken_cookie_goes_ahead() {
    let mut store = Store::new();
    let cookie = cookie_of(&join(&mut store, None, "alice").unwrap());
    logout(&mut store, Some(&cookie), None).unwrap();
    assert!(join(&mut store, Some(&cookie), "bob").is_ok());
    assert!(join(&mut store, Some("garbage"), "carol").is_ok());
    assert!(join(&mut store, Some(&cookie), "alice").is_ok());
    assert_eq!(store.get_game_state().0.len(), 3);
}

#[test]
fn logout_answers_with_the_expired_cookie() {
    let mut store = Store::new();
    let cookie = cookie_of(&join(&mut store, None, "alice").unwrap());
    assert_eq!(
        logout(&mut store, Some(&cookie), None),
        Ok("sid=;Expires=Thu, 01 Jan 1970 00:00:00 GMT".to_string())
    );
    assert_eq!(auth_state(&store, Some(&cookie)), Err(StoreError::NotFound));
    assert_eq!(logout(&mut store, Some(&cookie), None), Err(StoreError::NotFound));
    assert_eq!(store.get_game_state().0.len(), 1);
}

#[test]
fn logout_without_a_session_is_not_found() {
    let mut store = Store::new();
    assert_eq!(logout(&mut store, None, None), Err(StoreError::NotFound));
    assert_eq!(logout(&mut store, Some("garbage"), Some(true)), Err(StoreError::NotFound));
    assert_eq!(
        logout(&mut store, Some("00000000-0000-0000-0000-000000000001"), Some(true)),
        Err(StoreError::NotFound)
    );
}

#[test]
fn logout_with_wipe_deletes_the_team() {
    let mut store = Store::new();
    let cookie = cookie_of(&join(&mut store, None, "alice").unwrap());
    assert!(logout(&mut store, Some(&cookie), Some(true)).is_ok());
    assert!(store.get_game_state().0.is_empty());
}

#[test]
fn submit_and_auth_report_the_cookie_errors() {
    let mut store = store_with_puzzle();
    assert_eq!(submit_solution(&mut store, None, "p1", "42"), Err(StoreError::Unauthorized));
    assert_eq!(submit_solution(&mut store, Some("x"), "p1", "42"), Err(StoreError::BadRequest));
    assert_eq!(
        submit_solution(&mut store, Some("00000000-0000-0000-0000-000000000001"), "p1", "42"),
        Err(StoreError::Unauthorized)
    );
    assert_eq!(auth_state(&store, None), Err(StoreError::Unauthorized));
    assert_eq!(auth_state(&store, Some("x")), Err(StoreError::BadRequest));
    assert_eq!(
        auth_state(&store, Some("00000000-0000-0000-0000-000000000001")),
        Err(StoreError::NotFound)
    );
}

#[test]
fn identifier_of_given_random_bytes() {
    assert_eq!(session_id_from(&[0u8; 16]), Some(0));
    assert_eq!(session_id_from(&[0xffu8; 16]), Some(u128::MAX));
    let counted: [u8; 16] = [1, 2, 3, 4, 5, 6, 7, 8, 9, 10, 11, 12, 13, 14, 15, 16];
    assert_eq!(session_id_from(&counted), Some(0x0102_0304_0506_0708_090a_0b0c_0d0e_0f10));
    assert_eq!(session_id_from(&counted), Some(u128::from_be_bytes(counted)));
    let mut low = [0u8; 16];
    low[15] = 1;
    assert_eq!(session_id_from(&low), Some(1));
}

#[test]
fn identifier_needs_sixteen_bytes() {
    assert_eq!(session_id_from(&[]), None);
    assert_eq!(session_id_from(&[7u8; 15]), None);
    assert_eq!(session_id_from(&[7u8; 17]), None);
    assert!(session_id_from(&[7u8; 16]).is_some());
}

#[test]
fn fresh_identifiers_differ_and_every_one_is_a_cookie() {
    let a = fresh_session_id().unwrap();
    let b = fresh_session_id().unwrap();
    assert_ne!(a, b);
    for sid in [a, b, 0, u128::MAX] {
        let text = session_cookie_value(sid);
        assert_eq!(text.len(), 36);
        assert_eq!(extract_sid_cookie(Some(&text)), Ok(sid));
    }
}
