//! Session identifiers: unguessable tokens of 128 random bits, written as
//! UUIDs in cookies.

use crate::entropy::os_random;
use crate::error::StoreError;
use crate::models::SessionId;
use crate::wire::{be_bytes, be_value, lemma_be_limits, lemma_be_value_of_bytes, read_be};
use vstd::prelude::*;
use vstd::string::StringExecFns;

verus! {

/// Length of a session identifier in bytes.
pub const SESSION_ID_LEN: usize = 16;

/// The session identifier that is made of sixteen random bytes: the number
/// that they stand for, most significant byte first. All of its 128 bits
/// are those that were drawn.
pub open spec fn id_of_bytes(random: Seq<u8>) -> SessionId {
    be_value(random) as u128
}

/// The session identifier that is made of the given random bytes; `None`
/// unless they are sixteen.
pub fn session_id_from(random: &[u8]) -> (r: Option<SessionId>)
    ensures
        r == (if random@.len() == SESSION_ID_LEN {
            Some(id_of_bytes(random@))
        } else {
            None
        }),
{
    if random.len() != SESSION_ID_LEN {
        return None;
    }
    proof {
        assert(random@.subrange(0, 16) =~= random@);
    }
    Some(read_be(random, 0, SESSION_ID_LEN))
}

/// The session identifier that the text of a UUID stands for, in any of the
/// forms that the parser takes; `None` where the text is none of them.
pub uninterp spec fn uuid_parsed(text: Seq<char>) -> Option<SessionId>;

/// The sixteen hexadecimal digits, lower case.
pub open spec fn hex_digits() -> Seq<char> {
    seq!['0', '1', '2', '3', '4', '5', '6', '7', '8', '9', 'a', 'b', 'c', 'd', 'e', 'f']
}

/// Bytes in hexadecimal notation: two digits for each byte, the high half
/// first.
pub open spec fn hex_text(bytes: Seq<u8>) -> Seq<char> {
    Seq::new(
        2 * bytes.len(),
        |i: int|
            hex_digits()[if i % 2 == 0 {
                bytes[i / 2] / 16
            } else {
                bytes[i / 2] % 16
            } as int],
    )
}

/// The text of a session identifier as a UUID: the 32 lower-case
/// hexadecimal digits of its sixteen bytes, most significant byte first,
/// in groups of 8, 4, 4, 4 and 12 with hyphens between them.
pub open spec fn uuid_hyphenated(sid: SessionId) -> Seq<char> {
    let digits = hex_text(be_bytes(sid as nat, 16));
    digits.subrange(0, 8) + seq!['-'] + digits.subrange(8, 12) + seq!['-'] + digits.subrange(
        12,
        16,
    ) + seq!['-'] + digits.subrange(16, 20) + seq!['-'] + digits.subrange(20, 32)
}

/// The error of the UUID parser. Nothing is read from it.
#[verifier::external_type_specification]
#[verifier::external_body]
pub struct ExUuidError(uuid::Error);

/// `uuid::Uuid::try_parse`, then `Uuid::as_u128`.
///
/// Not proved. The claim: the outcome depends on the text alone; it is the
/// identifier that `uuid_parsed` stands for, or an error where that is
/// `None`.
#[verifier::external_body]
fn uuid_try_parse(text: &str) -> (r: Result<SessionId, uuid::Error>)
    ensures
        r matches Ok(sid) ==> uuid_parsed(text@) == Some(sid),
        r is Err ==> uuid_parsed(text@) is None,
{
    match uuid::Uuid::try_parse(text) {
        Ok(id) => Ok(id.as_u128()),
        Err(e) => Err(e),
    }
}

/// `uuid::Uuid::from_u128`, then `ToString::to_string`, which goes by the
/// `Display` of `Uuid`.
///
/// Not proved. The claim: the text is the hyphenated lower-case notation
/// that `uuid_hyphenated` spells out, 36 characters long, and the parser
/// reads it as the same identifier.
#[verifier::external_body]
fn uuid_to_string(sid: SessionId) -> (r: String)
    ensures
        r@ == uuid_hyphenated(sid),
        uuid_parsed(r@) == Some(sid),
{
    uuid::Uuid::from_u128(sid).to_string()
}

/// What the session cookie of a request comes to.
pub open spec fn cookie_outcome(cookie: Option<Seq<char>>) -> Result<SessionId, StoreError> {
    match cookie {
        None => Err(StoreError::Unauthorized),
        Some(text) => match uuid_parsed(text) {
            Some(sid) => Ok(sid),
            None => Err(StoreError::BadRequest),
        },
    }
}

/// The session identifier in the value of the `sid` cookie of a request.
/// No cookie is unauthorized; one that is no UUID is a bad request.
pub fn extract_sid_cookie(cookie: Option<&str>) -> (r: Result<SessionId, StoreError>)
    ensures
        r == cookie_outcome(
            match cookie {
                Some(text) => Some(text@),
                None => None,
            },
        ),
{
    match cookie {
        None => Err(StoreError::Unauthorized),
        Some(text) => match uuid_try_parse(text) {
            Ok(sid) => Ok(sid),
            Err(_) => Err(StoreError::BadRequest),
        },
    }
}

/// The value of the `sid` cookie that stands for a session.
pub fn session_cookie_value(sid: SessionId) -> (r: String)
    ensures
        r@ == uuid_hyphenated(sid),
        r@.len() == 36,
        cookie_outcome(Some(r@)) == Ok::<SessionId, StoreError>(sid),
{
    proof {
        lemma_be_limits();
        lemma_be_value_of_bytes(sid as nat, 16);
    }
    uuid_to_string(sid)
}

/// The header that sets the `sid` cookie of a new session: the cookie is
/// kept from scripts, sent over secure connections only, and to this site
/// only.
pub fn session_cookie(sid: SessionId) -> (r: String)
    ensures
        r@ == "sid="@ + uuid_hyphenated(sid) + ";HttpOnly;Secure;SameSite=Strict"@,
{
    let mut header = "sid=".to_owned();
    let value = session_cookie_value(sid);
    header.append(value.as_str());
    header.append(";HttpOnly;Secure;SameSite=Strict");
    header
}

/// The header that makes the client forget its `sid` cookie: an empty one
/// that expired long ago.
pub fn expired_cookie() -> (r: String)
    ensures
        r@ == "sid=;Expires=Thu, 01 Jan 1970 00:00:00 GMT"@,
{
    "sid=;Expires=Thu, 01 Jan 1970 00:00:00 GMT".to_owned()
}

/// Draws a session identifier from the system's random source: sixteen
/// bytes, all of which go into the identifier. The only failure is that
/// of the random source, and it is internal.
pub fn fresh_session_id() -> (r: Result<SessionId, StoreError>)
    ensures
        r matches Ok(sid) ==> exists|random: Seq<u8>|
            random.len() == SESSION_ID_LEN && sid == #[trigger] id_of_bytes(random),
        r matches Err(e) ==> e == StoreError::Internal,
{
    match os_random(SESSION_ID_LEN) {
        Ok(bytes) => match session_id_from(bytes.as_slice()) {
            Some(sid) => Ok(sid),
            // Not reached: sixteen bytes were drawn.
            None => Err(StoreError::Internal),
        },
        Err(_) => Err(StoreError::Internal),
    }
}

} // verus!
