use apollo::client::{
    admin_join_answered, admin_submit_answered, check_admin_username, check_auth, handle_action,
    handle_admin_submit, handle_join, handle_logout, join_answered, load_title, logout_answered,
    popup_error, popup_normal, unsolved, user_submit_answered, Action, AuthState, JoinRequest,
    Message,
};
use apollo::models::{Puzzle, PuzzleEntry};
use apollo::persist::{SaveEvent, Saver};

fn form(username: &str, password: &str) -> AuthState {
    AuthState { username: username.into(), password: password.into(), ..AuthState::default() }
}

fn err(text: &str) -> Option<(Message, String)> {
    Some((Message::MsgErr, text.to_string()))
}

fn norm(text: &str) -> Option<(Message, String)> {
    Some((Message::MsgNorm, text.to_string()))
}

#[test]
fn default_form_is_blank() {
    let auth = AuthState::default();
    assert_eq!(auth, form("", ""));
    assert!(!auth.joined && !auth.is_admin && !auth.show_password_prompt);
    assert_eq!(auth.clone(), auth);
}

#[test]
fn popups_replace_the_message() {
    let mut message = None;
    popup_error(&mut message, "bad");
    assert_eq!(message, err("bad"));
    popup_normal(&mut message, "good");
    assert_eq!(message, norm("good"));
}

#[test]
fn empty_username_is_complained_about() {
    let mut message = None;
    assert!(!form("", "").validate_username(&mut message));
    assert_eq!(message, err("A csapatnév nem lehet üres"));
    let mut message = None;
    assert!(form("x", "").validate_username(&mut message));
    assert!(form(" ", "").validate_username(&mut message));
    assert_eq!(message, None);
}

#[test]
fn empty_password_matters_for_the_administrator_only() {
    let mut message = None;
    assert!(form("x", "").validate_password(&mut message));
    assert_eq!(message, None);
    let mut admin = form("admin", "");
    admin.is_admin = true;
    assert!(!admin.validate_password(&mut message));
    assert_eq!(message, err("A jelszó nem lehet üres"));
    admin.password = "pw".into();
    let mut message = None;
    assert!(admin.validate_password(&mut message));
    assert_eq!(message, None);
}

#[test]
fn validate_stops_at_the_first_complaint() {
    let mut both = form("", "");
    both.is_admin = true;
    let mut message = None;
    assert!(!both.validate(&mut message));
    assert_eq!(message, err("A csapatnév nem lehet üres"));
    both.username = "admin".into();
    assert!(!both.validate(&mut message));
    assert_eq!(message, err("A jelszó nem lehet üres"));
    both.password = "pw".into();
    let mut message = None;
    assert!(both.validate(&mut message));
    assert_eq!(message, None);
}

#[test]
fn only_the_exact_name_is_the_administrators() {
    assert!(check_admin_username("admin"));
    assert!(!check_admin_username("Admin"));
    assert!(!check_admin_username("admin "));
    assert!(!check_admin_username(""));
}

#[test]
fn joining_as_a_team() {
    let mut auth = form("alice", "ignored");
    let mut message = None;
    assert_eq!(handle_join(&mut auth, &mut message), JoinRequest::Join("alice".into()));
    assert_eq!(auth, form("alice", "ignored"));
    assert_eq!(message, None);
    join_answered(&mut auth, &mut message, Ok("alice".into()));
    assert!(auth.joined && !auth.show_password_prompt && !auth.is_admin);
    assert_eq!(auth.password, "");
    assert_eq!(message, norm("Üdv, alice"));
}

#[test]
fn joining_with_an_empty_name() {
    let mut auth = form("", "pw");
    let mut message = None;
    assert_eq!(handle_join(&mut auth, &mut message), JoinRequest::Nothing);
    assert_eq!(auth, form("", "pw"));
    assert_eq!(message, err("A csapatnév nem lehet üres"));
}

#[test]
fn joining_as_the_administrator_asks_for_the_password_first() {
    let mut auth = form("admin", "");
    let mut message = None;
    assert_eq!(handle_join(&mut auth, &mut message), JoinRequest::Nothing);
    assert!(auth.is_admin && auth.show_password_prompt && !auth.joined);
    assert_eq!(message, err("A jelszó nem lehet üres"));
    auth.password = "secret".into();
    let mut message = None;
    assert_eq!(
        handle_join(&mut auth, &mut message),
        JoinRequest::SetAdminPassword("secret".into())
    );
    assert_eq!(message, None);
    admin_join_answered(&mut auth, &mut message, Ok("done".into()));
    assert!(auth.joined && auth.is_admin);
    assert_eq!(auth.password, "secret");
    assert_eq!(message, norm("done"));
}

#[test]
fn failed_joins_say_why() {
    let mut auth = form("alice", "");
    let mut message = None;
    join_answered(&mut auth, &mut message, Err(Some("taken session".into())));
    assert_eq!(auth, form("alice", ""));
    assert_eq!(message, err("Hiba: taken session"));
    join_answered(&mut auth, &mut message, Err(None));
    assert_eq!(message, err("Hiba: ismeretlen hiba"));
    admin_join_answered(&mut auth, &mut message, Err(Some("no".into())));
    assert!(!auth.joined);
    assert_eq!(message, err("Hiba: no"));
}

#[test]
fn the_button_joins_then_submits() {
    let mut auth = form("x", "");
    assert_eq!(handle_action(&auth), Action::Join);
    auth.is_admin = true;
    assert_eq!(handle_action(&auth), Action::Join);
    auth.joined = true;
    assert_eq!(handle_action(&auth), Action::AdminSubmit);
    auth.is_admin = false;
    assert_eq!(handle_action(&auth), Action::UserSubmit);
}

#[test]
fn administrator_submits_the_file_or_the_form() {
    let parsed = vec![PuzzleEntry {
        id: "f".into(),
        puzzle: Puzzle { solution: "s".into(), value: 1 },
    }];
    let mut message = None;
    assert_eq!(
        handle_admin_submit(&parsed, "typed", "nonsense", "t", &mut message),
        Some(vec![PuzzleEntry { id: "f".into(), puzzle: Puzzle { solution: "s".into(), value: 1 } }])
    );
    assert_eq!(
        handle_admin_submit(&vec![], "typed", "15", "t", &mut message),
        Some(vec![PuzzleEntry {
            id: "typed".into(),
            puzzle: Puzzle { solution: "t".into(), value: 15 }
        }])
    );
    assert_eq!(message, None);
    assert_eq!(handle_admin_submit(&vec![], "typed", "fifteen", "t", &mut message), None);
    assert_eq!(message, err("Az érték csak szám lehet"));
    let mut message = None;
    assert_eq!(handle_admin_submit(&vec![], "typed", "", "t", &mut message), None);
    assert_eq!(message, err("Az érték csak szám lehet"));
}

#[test]
fn answered_submissions_empty_the_form_on_success() {
    let (mut id, mut value, mut solution) = ("p".to_string(), "1".to_string(), "s".to_string());
    let mut message = None;
    admin_submit_answered(&mut id, &mut value, &mut solution, &mut message, Err(None));
    assert_eq!((id.as_str(), value.as_str(), solution.as_str()), ("p", "1", "s"));
    assert_eq!(message, err("Hiba: ismeretlen hiba"));
    admin_submit_answered(&mut id, &mut value, &mut solution, &mut message, Ok("ok".into()));
    assert_eq!((id.as_str(), value.as_str(), solution.as_str()), ("", "", ""));
    assert_eq!(message, norm("ok"));
    let (mut id, mut solution) = ("p".to_string(), "s".to_string());
    user_submit_answered(&mut id, &mut solution, &mut message, Err("wrong".into()));
    assert_eq!((id.as_str(), solution.as_str()), ("p", "s"));
    assert_eq!(message, err("Hiba: wrong"));
    user_submit_answered(&mut id, &mut solution, &mut message, Ok("fine".into()));
    assert_eq!((id.as_str(), solution.as_str()), ("", ""));
    assert_eq!(message, norm("fine"));
}

#[test]
fn logging_out_starts_the_form_over() {
    assert_eq!(handle_logout(true), Some(true));
    assert_eq!(handle_logout(false), None);
    let mut auth = form("alice", "");
    auth.joined = true;
    let mut message = None;
    logout_answered(&mut auth, &mut message, Err(Some("no session".into())));
    assert!(auth.joined);
    assert_eq!(message, err("Hiba: no session"));
    logout_answered(&mut auth, &mut message, Ok(()));
    assert_eq!(auth, AuthState::default());
    assert_eq!(message, norm("Viszlát, alice"));
}

#[test]
fn an_active_session_is_resumed() {
    let mut auth = form("", "");
    let mut message = None;
    check_auth(&mut auth, &mut message, None);
    assert_eq!(auth, form("", ""));
    assert_eq!(message, None);
    check_auth(&mut auth, &mut message, Some("alice".into()));
    assert!(auth.joined);
    assert_eq!(auth.username, "alice");
    assert_eq!(message, norm("Üdv újra, alice"));
}

#[test]
fn small_switches() {
    let mut full = false;
    apollo::client::toggle_fullscreen(&mut full);
    assert!(full);
    apollo::client::toggle_fullscreen(&mut full);
    assert!(!full);
    let mut message = norm("x");
    apollo::client::auto_hide_message(&mut message);
    assert_eq!(message, None);
    assert_eq!(apollo::client::MESSAGE_SECONDS, 5);
}

#[test]
fn title_falls_back() {
    let mut message = None;
    assert_eq!(load_title(&mut message, Ok("Finals".into())), "Finals");
    assert_eq!(message, None);
    assert_eq!(load_title(&mut message, Err("not set".into())), "Apollo esemény");
    assert_eq!(message, err("Hiba: not set"));
}

#[test]
fn unsolved_puzzles_keep_their_order() {
    let puzzles: Vec<(String, u32)> =
        vec![("c".into(), 1), ("a".into(), 2), ("b".into(), 3), ("d".into(), 4)];
    let solved: Vec<String> = vec!["b".into(), "c".into(), "zz".into()];
    assert_eq!(unsolved(&solved, &puzzles), vec!["a".to_string(), "d".to_string()]);
    assert_eq!(unsolved(&vec![], &puzzles).len(), 4);
    assert_eq!(unsolved(&solved, &vec![]), Vec::<String>::new());
}

#[test]
fn writer_coalesces_changes_that_fall_into_a_write() {
    let mut saver = Saver::Idle;
    let mut writes = 0;
    let events = [
        SaveEvent::Mutated,
        SaveEvent::Mutated,
        SaveEvent::Mutated,
        SaveEvent::Mutated,
        SaveEvent::Written,
        SaveEvent::Written,
        SaveEvent::Written,
    ];
    for e in events {
        let (next, begin) = saver.step(e);
        if begin {
            writes += 1;
        }
        saver = next;
    }
    assert_eq!(writes, 2);
    assert_eq!(saver, Saver::Idle);
    assert_eq!(Saver::Idle.step(SaveEvent::Mutated), (Saver::Writing, true));
    assert_eq!(Saver::Writing.step(SaveEvent::Written), (Saver::Idle, false));
    assert_eq!(Saver::Writing.step(SaveEvent::Mutated), (Saver::WritingStale, false));
    assert_eq!(Saver::WritingStale.step(SaveEvent::Written), (Saver::Writing, true));
}
