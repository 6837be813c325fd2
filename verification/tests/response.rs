use rested::interpreter::response::{prettify_json_string, shown_response};

#[test]
fn json_text_is_laid_out_one_value_per_line() {
    assert_eq!(prettify_json_string("{\"b\":1,\"a\":[true,null]}").unwrap(), "{\n  \"a\": [\n    true,\n    null\n  ],\n  \"b\": 1\n}");
}

#[test]
fn text_that_is_no_json_is_an_error() {
    assert!(prettify_json_string("{oops").is_err());
}

#[test]
fn a_json_response_to_a_request_with_a_body_is_laid_out() {
    assert_eq!(shown_response(true, "application/json", "[1,2]".to_string()).unwrap(), "[\n  1,\n  2\n]");
}

#[test]
fn other_responses_are_shown_as_they_came() {
    assert_eq!(shown_response(false, "application/json", "[1,2]".to_string()).unwrap(), "[1,2]");
    assert_eq!(shown_response(true, "text/plain", "{oops".to_string()).unwrap(), "{oops");
}
