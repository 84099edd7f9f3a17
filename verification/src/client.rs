//! What a client keeps between requests, and the checks it makes before it
//! sends one.

use crate::models::{Puzzle, PuzzleEntry, PuzzleId, PuzzleValue};
use crate::state::{names_set, reserved_name};
use crate::tables::{clone_puzzles, find_name};
use crate::text::{parse_u32, parsed_u32, str_eq};
use vstd::prelude::*;
use vstd::string::StringExecFns;
use vstd::utf8::encode_utf8;

verus! {

/// The kind of a message shown to the user.
#[derive(Clone, Copy, Debug, PartialEq, Eq, Structural)]
pub enum Message {
    MsgNorm,
    MsgErr,
}

/// The slot that holds the message on display, if any.
pub type MessageSlot = Option<(Message, String)>;

/// Whether the slot shows `text` at level `level`.
pub open spec fn shows(slot: MessageSlot, level: Message, text: Seq<char>) -> bool {
    slot matches Some((l, t)) && l == level && t@ == text
}

/// What the login form holds.
#[derive(Debug, PartialEq, Eq)]
pub struct AuthState {
    pub username: String,
    pub password: String,
    pub joined: bool,
    pub is_admin: bool,
    pub show_password_prompt: bool,
}

impl Clone for AuthState {
    fn clone(&self) -> (r: Self)
        ensures
            r.same_as(*self),
    {
        AuthState {
            username: self.username.clone(),
            password: self.password.clone(),
            joined: self.joined,
            is_admin: self.is_admin,
            show_password_prompt: self.show_password_prompt,
        }
    }
}

impl Default for AuthState {
    fn default() -> (r: Self)
        ensures
            r.username@.len() == 0,
            r.password@.len() == 0,
            !r.joined,
            !r.is_admin,
            !r.show_password_prompt,
    {
        AuthState {
            username: String::new(),
            password: String::new(),
            joined: false,
            is_admin: false,
            show_password_prompt: false,
        }
    }
}

/// Puts an error message on display.
pub fn popup_error(signal_message: &mut MessageSlot, text: &str)
    ensures
        shows(*final(signal_message), Message::MsgErr, text@),
{
    *signal_message = Some((Message::MsgErr, text.to_owned()));
}

/// Puts an ordinary message on display.
pub fn popup_normal(signal_message: &mut MessageSlot, text: &str)
    ensures
        shows(*final(signal_message), Message::MsgNorm, text@),
{
    *signal_message = Some((Message::MsgNorm, text.to_owned()));
}

/// The complaint about an empty team name.
pub open spec fn empty_username_text() -> Seq<char> {
    "A csapatnév nem lehet üres"@
}

/// The complaint about an empty administrator password.
pub open spec fn empty_password_text() -> Seq<char> {
    "A jelszó nem lehet üres"@
}

impl AuthState {
    /// Both forms hold the same.
    pub open spec fn same_as(self, other: AuthState) -> bool {
        &&& self.username@ == other.username@
        &&& self.password@ == other.password@
        &&& self.joined == other.joined
        &&& self.is_admin == other.is_admin
        &&& self.show_password_prompt == other.show_password_prompt
    }

    /// The form is as it was at the start.
    pub open spec fn is_blank(self) -> bool {
        &&& self.username@.len() == 0
        &&& self.password@.len() == 0
        &&& !self.joined
        &&& !self.is_admin
        &&& !self.show_password_prompt
    }

    /// The team name is not empty.
    pub open spec fn username_ok(&self) -> bool {
        self.username@.len() > 0
    }

    /// An administrator has typed a password.
    pub open spec fn password_ok(&self) -> bool {
        !(self.is_admin && self.password@.len() == 0)
    }

    /// Checks the team name; complains on the display if it is empty.
    pub fn validate_username(&self, message: &mut MessageSlot) -> (r: bool)
        ensures
            r == self.username_ok(),
            r ==> *final(message) == *old(message),
            !r ==> shows(*final(message), Message::MsgErr, empty_username_text()),
    {
        if self.username.as_str().is_empty() {
            popup_error(message, "A csapatnév nem lehet üres");
            return false;
        }
        true
    }

    /// Checks the password of an administrator; complains on the display
    /// if it is empty.
    pub fn validate_password(&self, message: &mut MessageSlot) -> (r: bool)
        ensures
            r == self.password_ok(),
            r ==> *final(message) == *old(message),
            !r ==> shows(*final(message), Message::MsgErr, empty_password_text()),
    {
        if self.is_admin && self.password.as_str().is_empty() {
            popup_error(message, "A jelszó nem lehet üres");
            return false;
        }
        true
    }

    /// Checks the team name, then the password; the first complaint stays
    /// on display.
    pub fn validate(&self, message: &mut MessageSlot) -> (r: bool)
        ensures
            r == (self.username_ok() && self.password_ok()),
            r ==> *final(message) == *old(message),
            !self.username_ok() ==> shows(
                *final(message),
                Message::MsgErr,
                empty_username_text(),
            ),
            self.username_ok() && !self.password_ok() ==> shows(
                *final(message),
                Message::MsgErr,
                empty_password_text(),
            ),
    {
        if !self.validate_username(message) {
            return false;
        }
        if !self.validate_password(message) {
            return false;
        }
        true
    }
}

/// What a client asks of the server when the user wants to join.
#[derive(Debug, PartialEq, Eq)]
pub enum JoinRequest {
    /// Nothing: the form is not filled in yet.
    Nothing,
    /// To set the administrator's password.
    SetAdminPassword(String),
    /// To join as a team.
    Join(String),
}

/// What the one button of the form does.
#[derive(Clone, Copy, Debug, PartialEq, Eq, Structural)]
pub enum Action {
    Join,
    AdminSubmit,
    UserSubmit,
}

/// Whether the name is the administrator's.
pub fn check_admin_username(username: &str) -> (r: bool)
    ensures
        r == (username@ == reserved_name()),
{
    str_eq(username, "admin")
}

/// The text of an error message: what went wrong, if the server said so.
pub open spec fn error_text(detail: Option<Seq<char>>) -> Seq<char> {
    "Hiba: "@ + (match detail {
        Some(text) => text,
        None => "ismeretlen hiba"@,
    })
}

/// Puts on display that a request failed.
pub fn popup_failure(message: &mut MessageSlot, detail: &Option<String>)
    ensures
        shows(
            *final(message),
            Message::MsgErr,
            error_text(
                match *detail {
                    Some(text) => Some(text@),
                    None => None,
                },
            ),
        ),
{
    let mut text = "Hiba: ".to_owned();
    match detail {
        Some(reason) => text.append(reason.as_str()),
        None => text.append("ismeretlen hiba"),
    }
    popup_error(message, text.as_str());
}

/// Decides what to ask of the server when the user wants to join.
///
/// An empty name is complained about. The administrator's name turns the
/// form into the administrator's and shows the password prompt; then the
/// password is asked for, and complained about if it is empty. Any other
/// name joins as a team.
pub fn handle_join(auth: &mut AuthState, message: &mut MessageSlot) -> (r: JoinRequest)
    ensures
        final(auth).username@ == old(auth).username@,
        final(auth).password@ == old(auth).password@,
        final(auth).joined == old(auth).joined,
        !old(auth).username_ok() ==> r is Nothing && final(auth).same_as(*old(auth)) && shows(
            *final(message),
            Message::MsgErr,
            empty_username_text(),
        ),
        old(auth).username_ok() && old(auth).username@ == reserved_name() ==> final(auth).is_admin
            && final(auth).show_password_prompt && (if old(auth).password@.len() == 0 {
            r is Nothing && shows(*final(message), Message::MsgErr, empty_password_text())
        } else {
            *final(message) == *old(message) && (r matches JoinRequest::SetAdminPassword(
                password,
            ) && password@ == old(auth).password@)
        }),
        old(auth).username_ok() && old(auth).username@ != reserved_name() ==> final(auth).same_as(
            *old(auth),
        ) && *final(message) == *old(message) && (r matches JoinRequest::Join(name) && name@
            == old(auth).username@),
{
    if !auth.validate_username(message) {
        return JoinRequest::Nothing;
    }
    if check_admin_username(auth.username.as_str()) {
        auth.is_admin = true;
        auth.show_password_prompt = true;
        if auth.validate_password(message) {
            return JoinRequest::SetAdminPassword(auth.password.clone());
        }
        return JoinRequest::Nothing;
    }
    JoinRequest::Join(auth.username.clone())
}

/// Takes the server's answer to setting the administrator's password.
pub fn admin_join_answered(
    auth: &mut AuthState,
    message: &mut MessageSlot,
    reply: Result<String, Option<String>>,
)
    ensures
        final(auth).username@ == old(auth).username@,
        final(auth).password@ == old(auth).password@,
        final(auth).is_admin == old(auth).is_admin,
        final(auth).show_password_prompt == old(auth).show_password_prompt,
        reply matches Ok(text) ==> final(auth).joined && shows(
            *final(message),
            Message::MsgNorm,
            text@,
        ),
        reply matches Err(detail) ==> final(auth).joined == old(auth).joined && shows(
            *final(message),
            Message::MsgErr,
            error_text(
                match detail {
                    Some(text) => Some(text@),
                    None => None,
                },
            ),
        ),
{
    match reply {
        Ok(text) => {
            auth.joined = true;
            popup_normal(message, text.as_str());
        },
        Err(detail) => popup_failure(message, &detail),
    }
}

/// The greeting of a team that joined.
pub open spec fn welcome_text(name: Seq<char>) -> Seq<char> {
    "Üdv, "@ + name
}

/// Takes the server's answer to joining as a team: the name that the new
/// session authenticates, or why there is none.
pub fn join_answered(
    auth: &mut AuthState,
    message: &mut MessageSlot,
    reply: Result<String, Option<String>>,
)
    ensures
        final(auth).username@ == old(auth).username@,
        final(auth).is_admin == old(auth).is_admin,
        reply matches Ok(name) ==> final(auth).joined && final(auth).password@.len() == 0
            && !final(auth).show_password_prompt && shows(
            *final(message),
            Message::MsgNorm,
            welcome_text(name@),
        ),
        reply matches Err(detail) ==> final(auth).same_as(*old(auth)) && shows(
            *final(message),
            Message::MsgErr,
            error_text(
                match detail {
                    Some(text) => Some(text@),
                    None => None,
                },
            ),
        ),
{
    match reply {
        Ok(name) => {
            let mut text = "Üdv, ".to_owned();
            text.append(name.as_str());
            popup_normal(message, text.as_str());
            auth.joined = true;
            auth.password = String::new();
            auth.show_password_prompt = false;
        },
        Err(detail) => popup_failure(message, &detail),
    }
}

/// What the button does: join while not joined, then submit as the
/// administrator or as a team.
pub fn handle_action(auth: &AuthState) -> (r: Action)
    ensures
        r == (if !auth.joined {
            Action::Join
        } else if auth.is_admin {
            Action::AdminSubmit
        } else {
            Action::UserSubmit
        }),
{
    if !auth.joined {
        Action::Join
    } else if auth.is_admin {
        Action::AdminSubmit
    } else {
        Action::UserSubmit
    }
}

/// The complaint about a value that is no number.
pub open spec fn bad_value_text() -> Seq<char> {
    "Az érték csak szám lehet"@
}

/// The batch that the administrator submits: the puzzles read from a file
/// if there are any, else the one puzzle typed into the form, whose value
/// must be a number.
pub fn handle_admin_submit(
    parsed_puzzles: &Vec<PuzzleEntry>,
    puzzle_id: &str,
    puzzle_value: &str,
    puzzle_solution: &str,
    message: &mut MessageSlot,
) -> (r: Option<Vec<PuzzleEntry>>)
    ensures
        parsed_puzzles.len() > 0 ==> *final(message) == *old(message) && (r matches Some(batch)
            && batch.deep_view() == parsed_puzzles.deep_view()),
        parsed_puzzles.len() == 0 ==> (match parsed_u32(encode_utf8(puzzle_value@)) {
            Some(value) => *final(message) == *old(message) && (r matches Some(batch)
                && batch.len() == 1 && batch@[0].id@ == puzzle_id@ && batch@[0].puzzle.solution@
                == puzzle_solution@ && batch@[0].puzzle.value == value),
            None => r is None && shows(*final(message), Message::MsgErr, bad_value_text()),
        }),
{
    if parsed_puzzles.len() > 0 {
        return Some(clone_puzzles(parsed_puzzles));
    }
    let value = match parse_u32(puzzle_value) {
        Some(value) => value,
        None => {
            popup_error(message, "Az érték csak szám lehet");
            return None;
        },
    };
    let mut batch: Vec<PuzzleEntry> = Vec::new();
    batch.push(
        PuzzleEntry {
            id: puzzle_id.to_owned(),
            puzzle: Puzzle { solution: puzzle_solution.to_owned(), value },
        },
    );
    Some(batch)
}

/// Takes the server's answer to the administrator's submission: on
/// success the form is emptied.
pub fn admin_submit_answered(
    puzzle_id: &mut String,
    puzzle_value: &mut String,
    puzzle_solution: &mut String,
    message: &mut MessageSlot,
    reply: Result<String, Option<String>>,
)
    ensures
        reply matches Ok(text) ==> final(puzzle_id)@.len() == 0 && final(puzzle_value)@.len() == 0
            && final(puzzle_solution)@.len() == 0 && shows(
            *final(message),
            Message::MsgNorm,
            text@,
        ),
        reply matches Err(detail) ==> final(puzzle_id)@ == old(puzzle_id)@ && final(puzzle_value)@
            == old(puzzle_value)@ && final(puzzle_solution)@ == old(puzzle_solution)@ && shows(
            *final(message),
            Message::MsgErr,
            error_text(
                match detail {
                    Some(text) => Some(text@),
                    None => None,
                },
            ),
        ),
{
    match reply {
        Ok(text) => {
            popup_normal(message, text.as_str());
            *puzzle_id = String::new();
            *puzzle_solution = String::new();
            *puzzle_value = String::new();
        },
        Err(detail) => popup_failure(message, &detail),
    }
}

/// Takes the server's answer to a team's submission: on success the form
/// is emptied.
pub fn user_submit_answered(
    puzzle_id: &mut String,
    puzzle_solution: &mut String,
    message: &mut MessageSlot,
    reply: Result<String, String>,
)
    ensures
        reply matches Ok(text) ==> final(puzzle_id)@.len() == 0 && final(puzzle_solution)@.len()
            == 0 && shows(*final(message), Message::MsgNorm, text@),
        reply matches Err(detail) ==> final(puzzle_id)@ == old(puzzle_id)@
            && final(puzzle_solution)@ == old(puzzle_solution)@ && shows(
            *final(message),
            Message::MsgErr,
            error_text(Some(detail@)),
        ),
{
    match reply {
        Ok(text) => {
            popup_normal(message, text.as_str());
            *puzzle_id = String::new();
            *puzzle_solution = String::new();
        },
        Err(detail) => popup_failure(message, &Some(detail)),
    }
}

/// What to ask of the server when the user logs out: to wipe the team's
/// progress, or nothing in particular.
pub fn handle_logout(superlogout: bool) -> (r: Option<bool>)
    ensures
        r == (if superlogout {
            Some(true)
        } else {
            None::<bool>
        }),
{
    if superlogout {
        Some(true)
    } else {
        None
    }
}

/// The farewell to a team that logged out.
pub open spec fn farewell_text(name: Seq<char>) -> Seq<char> {
    "Viszlát, "@ + name
}

/// Takes the server's answer to logging out: on success the form starts
/// over.
pub fn logout_answered(
    auth: &mut AuthState,
    message: &mut MessageSlot,
    reply: Result<(), Option<String>>,
)
    ensures
        reply is Ok ==> final(auth).is_blank() && shows(
            *final(message),
            Message::MsgNorm,
            farewell_text(old(auth).username@),
        ),
        reply matches Err(detail) ==> final(auth).same_as(*old(auth)) && shows(
            *final(message),
            Message::MsgErr,
            error_text(
                match detail {
                    Some(text) => Some(text@),
                    None => None,
                },
            ),
        ),
{
    match reply {
        Ok(()) => {
            let mut text = "Viszlát, ".to_owned();
            text.append(auth.username.as_str());
            popup_normal(message, text.as_str());
            *auth = AuthState::default();
        },
        Err(detail) => popup_failure(message, &detail),
    }
}

/// The greeting of a team whose session is still active.
pub open spec fn welcome_back_text(name: Seq<char>) -> Seq<char> {
    "Üdv újra, "@ + name
}

/// Takes the server's answer to the question whom the session
/// authenticates: a name puts the form into the joined state.
pub fn check_auth(auth: &mut AuthState, message: &mut MessageSlot, reply: Option<String>)
    ensures
        final(auth).password@ == old(auth).password@,
        final(auth).is_admin == old(auth).is_admin,
        final(auth).show_password_prompt == old(auth).show_password_prompt,
        reply matches Some(name) ==> final(auth).username@ == name@ && final(auth).joined && shows(
            *final(message),
            Message::MsgNorm,
            welcome_back_text(name@),
        ),
        reply is None ==> final(auth).same_as(*old(auth)) && *final(message) == *old(message),
{
    match reply {
        Some(name) => {
            let mut text = "Üdv újra, ".to_owned();
            text.append(name.as_str());
            popup_normal(message, text.as_str());
            auth.username = name;
            auth.joined = true;
        },
        None => {},
    }
}

/// The title that is shown where the server gave none.
pub open spec fn fallback_title() -> Seq<char> {
    "Apollo esemény"@
}

/// Takes the server's answer to the question of the event's title: the
/// title, or a complaint on the display and a title to show instead.
pub fn load_title(message: &mut MessageSlot, reply: Result<String, String>) -> (r: String)
    ensures
        reply matches Ok(title) ==> r@ == title@ && *final(message) == *old(message),
        reply matches Err(detail) ==> r@ == fallback_title() && shows(
            *final(message),
            Message::MsgErr,
            error_text(Some(detail@)),
        ),
{
    match reply {
        Ok(title) => title,
        Err(detail) => {
            popup_failure(message, &Some(detail));
            "Apollo esemény".to_owned()
        },
    }
}

/// Switches between the table alone and the whole page.
pub fn toggle_fullscreen(is_fullscreen: &mut bool)
    ensures
        *final(is_fullscreen) == !*old(is_fullscreen),
{
    *is_fullscreen = !*is_fullscreen;
}

/// For how many seconds a message stays on display.
pub const MESSAGE_SECONDS: u64 = 5;

/// Takes the message off the display, when its time is over.
pub fn auto_hide_message(message: &mut MessageSlot)
    ensures
        *final(message) is None,
{
    *message = None;
}

/// The puzzles that a team can still choose from: those it has not solved,
/// in the order of the list.
pub fn unsolved(solved: &Vec<PuzzleId>, puzzles: &Vec<(PuzzleId, PuzzleValue)>) -> (r: Vec<PuzzleId>)
    ensures
        r.deep_view() == puzzles@.filter(
            |p: (PuzzleId, PuzzleValue)| !names_set(solved@).contains(p.0@),
        ).map_values(|p: (PuzzleId, PuzzleValue)| p.0@),
{
    let ghost open_yet = |p: (PuzzleId, PuzzleValue)| !names_set(solved@).contains(p.0@);
    let ghost name_of = |p: (PuzzleId, PuzzleValue)| p.0@;
    let mut out: Vec<PuzzleId> = Vec::new();
    let mut i: usize = 0;
    proof {
        assert(puzzles@.take(0) =~= Seq::empty());
        assert(puzzles@.take(0).filter(open_yet) =~= Seq::empty()) by {
            reveal(Seq::filter);
        }
        assert(out.deep_view() =~= puzzles@.take(0).filter(open_yet).map_values(name_of));
    }
    while i < puzzles.len()
        invariant
            i <= puzzles.len(),
            open_yet == |p: (PuzzleId, PuzzleValue)| !names_set(solved@).contains(p.0@),
            name_of == |p: (PuzzleId, PuzzleValue)| p.0@,
            out.deep_view() == puzzles@.take(i as int).filter(open_yet).map_values(name_of),
        decreases puzzles.len() - i,
    {
        let ghost before = out.deep_view();
        let ghost seen = puzzles@.take(i as int);
        proof {
            assert(puzzles@.take(i + 1) =~= seen.push(puzzles@[i as int]));
            assert(puzzles@.take(i + 1).drop_last() =~= seen);
            reveal(Seq::filter);
        }
        if find_name(solved, puzzles[i].0.as_str()).is_none() {
            out.push(puzzles[i].0.clone());
            proof {
                assert(out.deep_view() =~= before.push(puzzles@[i as int].0@));
                assert(seen.push(puzzles@[i as int]).filter(open_yet) =~= seen.filter(
                    open_yet,
                ).push(puzzles@[i as int]));
                assert(out.deep_view() =~= puzzles@.take(i + 1).filter(open_yet).map_values(
                    name_of,
                ));
            }
        } else {
            proof {
                assert(seen.push(puzzles@[i as int]).filter(open_yet) =~= seen.filter(open_yet));
            }
        }
        i += 1;
    }
    proof {
        assert(puzzles@.take(puzzles.len() as int) =~= puzzles@);
    }
    out
}

} // verus!
