//! The plain answers of the API server.
use vstd::prelude::*;

verus! {

/// What `GET /` answers.
pub const ROOT_MESSAGE: &'static str = "Hello, I am Fukuyoka";

/// What a request for an unknown path is answered.
pub fn not_found_message(uri: &str) -> (r: String)
    ensures
        r@ == "API : 404 Not Found - "@ + uri@,
{
    let mut r = String::from_str("API : 404 Not Found - ");
    r.append(uri);
    r
}

/// The HTTP status that a request for an unknown path is answered with.
pub const NOT_FOUND_STATUS: u16 = 404;

/// What a request for an unknown path is answered: the status Not Found and
/// the message that names the path.
pub fn not_found_reply(uri: &str) -> (r: (u16, String))
    ensures
        r.0 == 404,
        r.1@ == "API : 404 Not Found - "@ + uri@,
{
    (NOT_FOUND_STATUS, not_found_message(uri))
}

/// The error that a request whose `text` field is missing or empty is
/// answered; none when the text is there.
pub fn text_required_error(text: &str) -> (r: Option<String>)
    ensures
        (r is Some <==> text@.len() == 0),
        (r matches Some(m) ==> m@ == "text field is required"@),
{
    if text.unicode_len() == 0 {
        Some(String::from_str("text field is required"))
    } else {
        None
    }
}

} // verus!
