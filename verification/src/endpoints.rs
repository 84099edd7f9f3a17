//! The operations as a transport calls them: the session comes as the
//! value of the request's `sid` cookie, if it has one.

use crate::error::StoreError;
use crate::models::SessionId;
use crate::session::{
    cookie_outcome, expired_cookie, extract_sid_cookie, session_cookie, uuid_hyphenated,
};
use crate::state::{StoreState, SubmitOutcome};
use crate::store::Store;
use vstd::prelude::*;

verus! {

/// The text of a cookie's value, if there is a cookie.
pub open spec fn cookie_text(cookie: Option<&str>) -> Option<Seq<char>> {
    match cookie {
        Some(text) => Some(text@),
        None => None,
    }
}

/// The request comes with the cookie of an active session.
pub open spec fn logged_in(s: StoreState, cookie: Option<Seq<char>>) -> bool {
    cookie_outcome(cookie) matches Ok(sid) && s.sessions.contains_key(sid)
}

/// The header that sets the cookie of the session `sid`.
pub open spec fn cookie_header(sid: SessionId) -> Seq<char> {
    "sid="@ + uuid_hyphenated(sid) + ";HttpOnly;Secure;SameSite=Strict"@
}

/// Joins the competition as the team `username`, and returns the header
/// that sets the cookie of the new session.
///
/// A request that comes with the cookie of an active session is a
/// conflict: it is logged in already. So is the reserved name, and a name
/// with an active session. Any other failure is internal.
pub fn join(store: &mut Store, cookie: Option<&str>, username: &str) -> (r: Result<
    String,
    StoreError,
>)
    ensures
        (logged_in(old(store)@, cookie_text(cookie)) || old(store)@.join_refused(username@)) <==> r
            == Err::<String, StoreError>(StoreError::Conflict),
        r matches Ok(header) ==> exists|sid: SessionId|
            !old(store)@.sessions.contains_key(sid) && final(store)@ == #[trigger] old(
                store,
            )@.joined(username@, sid) && header@ == cookie_header(sid),
        r matches Err(e) ==> final(store)@ == old(store)@ && (e == StoreError::Conflict || e
            == StoreError::Internal),
        final(store)@.consistent(),
{
    match extract_sid_cookie(cookie) {
        Ok(sent) => {
            if store.auth_state(sent).is_ok() {
                store.recall_invariant();
                return Err(StoreError::Conflict);
            }
        },
        Err(_) => {},
    }
    match store.join(username) {
        Ok(sid) => Ok(session_cookie(sid)),
        Err(e) => Err(e),
    }
}

/// The outcome of a request to log out.
pub open spec fn logout_outcome(s: StoreState, cookie: Option<Seq<char>>) -> Result<
    (),
    StoreError,
> {
    match cookie_outcome(cookie) {
        Ok(sid) => s.logout_outcome(sid),
        Err(_) => Err(StoreError::NotFound),
    }
}

/// Logs out of the session of the request's cookie, deletes the team's
/// record if `wipe_progress` is `Some(true)`, and returns the header that
/// makes the client forget the cookie.
///
/// Without the cookie of an active session there is nothing to log out
/// of: not found.
pub fn logout(store: &mut Store, cookie: Option<&str>, wipe_progress: Option<bool>) -> (r: Result<
    String,
    StoreError,
>)
    ensures
        r is Ok <==> logout_outcome(old(store)@, cookie_text(cookie)) is Ok,
        r matches Ok(header) ==> header@ == "sid=;Expires=Thu, 01 Jan 1970 00:00:00 GMT"@
            && final(store)@ == old(store)@.logged_out(
            cookie_outcome(cookie_text(cookie))->Ok_0,
            wipe_progress == Some(true),
        ),
        r matches Err(e) ==> e == StoreError::NotFound && final(store)@ == old(store)@,
        final(store)@.consistent(),
{
    let sid = match extract_sid_cookie(cookie) {
        Ok(sid) => sid,
        Err(_) => {
            store.recall_invariant();
            return Err(StoreError::NotFound);
        },
    };
    match store.logout(sid, wipe_progress) {
        Ok(()) => Ok(expired_cookie()),
        Err(e) => Err(e),
    }
}

/// The outcome of a request to submit a solution.
pub open spec fn submit_outcome(
    s: StoreState,
    cookie: Option<Seq<char>>,
    puzzle: Seq<char>,
    solution: Seq<char>,
) -> Result<SubmitOutcome, StoreError> {
    match cookie_outcome(cookie) {
        Ok(sid) => s.submit_outcome(sid, puzzle, solution),
        Err(e) => Err(e),
    }
}

/// Submits a solution as the team of the request's cookie.
///
/// No cookie is unauthorized, and so is the cookie of no active session;
/// a cookie that is no UUID is a bad request. The rest is as the store
/// says.
pub fn submit_solution(
    store: &mut Store,
    cookie: Option<&str>,
    puzzle_id: &str,
    solution: &str,
) -> (r: Result<SubmitOutcome, StoreError>)
    ensures
        r == submit_outcome(old(store)@, cookie_text(cookie), puzzle_id@, solution@),
        final(store)@ == (match cookie_outcome(cookie_text(cookie)) {
            Ok(sid) => old(store)@.submitted(sid, puzzle_id@, solution@),
            Err(_) => old(store)@,
        }),
        final(store)@.consistent(),
{
    let sid = match extract_sid_cookie(cookie) {
        Ok(sid) => sid,
        Err(e) => {
            store.recall_invariant();
            return Err(e);
        },
    };
    store.submit_solution(sid, puzzle_id, solution)
}

/// The team that the request's cookie authenticates.
///
/// No cookie is unauthorized; a cookie that is no UUID is a bad request;
/// the cookie of no active session is not found.
pub fn auth_state(store: &Store, cookie: Option<&str>) -> (r: Result<String, StoreError>)
    ensures
        r matches Ok(name) ==> cookie_outcome(cookie_text(cookie)) matches Ok(sid)
            && store@.sessions.contains_key(sid) && name@ == store@.sessions[sid],
        r matches Err(e) ==> (match cookie_outcome(cookie_text(cookie)) {
            Ok(sid) => !store@.sessions.contains_key(sid) && e == StoreError::NotFound,
            Err(refusal) => e == refusal,
        }),
{
    let sid = match extract_sid_cookie(cookie) {
        Ok(sid) => sid,
        Err(e) => {
            return Err(e);
        },
    };
    store.auth_state(sid)
}

} // verus!
