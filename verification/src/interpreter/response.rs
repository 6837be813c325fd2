//! How a response is shown: a JSON response to a request that sent a body is
//! laid out anew, one value per line.
use vstd::prelude::*;
use vstd::string::*;

use crate::text::str_eq;

verus! {

/// The text of the JSON value that `text` holds, laid out by `serde_json`'s
/// pretty printer; none when `text` holds no JSON value.
pub uninterp spec fn pretty_json(text: Seq<char>) -> Option<Seq<char>>;

/// `serde_json::from_str` into a `serde_json::Value`, then
/// `serde_json::to_string_pretty` of it. The result is claimed to be a function
/// of the text alone (objects keep their keys in a sorted map); when the text
/// is no JSON value the error's words are serde_json's and are not stated.
#[verifier::external_body]
pub fn prettify_json_string(text: &str) -> (r: Result<String, String>)
    ensures
        match r {
            Ok(p) => pretty_json(text@) == Some(p@),
            Err(_) => pretty_json(text@) is None,
        },
{
    match serde_json::from_str::<serde_json::Value>(text) {
        Ok(value) => match serde_json::to_string_pretty(&value) {
            Ok(p) => Ok(p),
            Err(e) => Err(e.to_string()),
        },
        Err(e) => Err(e.to_string()),
    }
}

/// The text to show of a response: laid out anew as JSON when the request sent
/// a body and the response's content type is `application/json`, otherwise as
/// it came.
pub fn shown_response(sent_body: bool, content_type: &str, text: String) -> (r: Result<String, String>)
    ensures
        (sent_body && content_type@ == "application/json"@) ==> match r {
            Ok(p) => pretty_json(text@) == Some(p@),
            Err(_) => pretty_json(text@) is None,
        },
        !(sent_body && content_type@ == "application/json"@) ==> (r matches Ok(t) && t@ == text@),
{
    if sent_body && str_eq(content_type, "application/json") {
        prettify_json_string(text.as_str())
    } else {
        Ok(text)
    }
}

} // verus!
