use rested::error::Error;
use rested::error_meta::error_text;
use rested::interpreter::error::InterpError;
use rested::interpreter::ir::RequestId;
use rested::interpreter::runtime::Environment;
use rested::interpreter::{Halt, Interpreter};
use rested::locations::Location;
use rested::parser::Parser;

fn items_text(code: &str) -> Vec<String> {
    let mut parser = Parser::new(code);
    let program = parser.parse().unwrap();
    program.items.iter().map(|i| i.to_string()).collect()
}

#[test]
fn items_are_written_one_per_line() {
    let lines = items_text("set BASE_URL \"x\"\nlet a = env(\"k\")\n@log(\"f\")\npost /p {\n header \"A\" \"b\"\n body `t${a}u`\n}\n// c");
    assert_eq!(
        lines,
        vec![
            "set BASE_URL \"x\"".to_string(),
            "let a env(\"k\")".to_string(),
            "@log(\"f\")".to_string(),
            "POST /p { header \"A\" \"b\" body `t a u` }".to_string(),
            "// c".to_string(),
        ]
    );
}

#[test]
fn objects_and_arrays_are_written_with_their_members() {
    let lines = items_text("let o = {b: 1, a: [true, null]}\nget http://x\nlet e = {}\nlet f = []");
    assert_eq!(lines[0], "let o {a: [true null] b: 1}");
    assert_eq!(lines[1], "GET http://x {  }");
    assert_eq!(lines[2], "let e {}");
    assert_eq!(lines[3], "let f []");
}

#[test]
fn variables_are_listed_in_order() {
    let code = "let a = \"1\"\nget http://x\nlet b = \"2\"";
    let mut parser = Parser::new(code);
    let program = parser.parse().unwrap();
    let names: Vec<&str> = program.variables().iter().map(|i| i.name).collect();
    assert_eq!(names, vec!["a", "b"]);
    let before: Vec<&str> = program.variables_before(Location { line: 1, col: 0 }).iter().map(|i| i.name).collect();
    assert_eq!(before, vec!["a"]);
}

fn evaluate(code: &str) -> Vec<rested::interpreter::ir::RequestItem> {
    let env = Environment::new("f".to_string(), None);
    let mut interpreter = Interpreter::new(code, env);
    match interpreter.evaluate(&Vec::new()) {
        Ok(r) => r,
        Err(Halt::Errors(e)) => panic!("{:?}", e),
        Err(Halt::ReadFile(p)) => panic!("{p}"),
    }
}

#[test]
fn requests_are_written_as_curl_commands() {
    let reqs = evaluate("@name(\"n\")\n@dbg\n@log(\"out.txt\")\npost http://x { header \"A\" \"b\" body \"d\" }\nget http://y");
    assert_eq!(
        reqs[0].to_curl_string(),
        "set -xe\necho ncurl -X POST -H \"A: b\" -d 'd' http://x 1> out.txt\nset +xe"
    );
    assert_eq!(reqs[1].to_curl_string(), "curl -X GET http://y");
    let id = RequestId::from_item(&reqs[0]);
    assert_eq!(id.as_string(), "POST::n");
    assert_eq!(RequestId::from_item(&reqs[1]).as_string(), "GET::http://y");
}

#[test]
fn errors_show_the_lines_around_them() {
    let e = Error::new(InterpError::Other { error: "boom".to_string() }, Location { line: 1, col: 2 }, "ab\ncdef\ngh");
    assert_eq!(e.format(), "ab\ncdef\n  \u{21B3} at 2:3 boom\ngh\n");
    let e = e.with_message("m");
    assert_eq!(e.format(), "ab\ncdef\n  \u{21B3} at 2:3 boom\n     m\ngh\n");
    let e = Error::new(InterpError::RequestWithPathnameWithoutBaseUrl, Location { line: 0, col: 0 }, "x");
    assert_eq!(
        e.format(),
        "x\n\u{21B3} at 1:1 BASE_URL needs to be set first for requests to work with just pathnames\n"
    );
}

#[test]
fn contextual_errors_point_under_the_error() {
    let env = Environment::new("f".to_string(), None);
    let mut interpreter = Interpreter::new("get /api", env);
    match interpreter.evaluate(&Vec::new()) {
        Err(Halt::Errors(es)) => {
            let e = &es[0];
            let text = error_text(e).unwrap();
            assert!(text.starts_with("get /api\n    \u{2248}\u{2248}\u{2248}\u{2248}\n    \u{21B3} [1:5] BASE_URL"));
        }
        other => panic!("unexpected {:?}", other),
    }
}

#[test]
fn locations_are_ordered_by_line_then_column() {
    let a = Location { line: 0, col: 5 };
    let b = Location { line: 1, col: 0 };
    assert!(a.is_before(b));
    assert!(!b.is_before(a));
}

#[test]
fn a_request_id_is_read_back_from_its_text() {
    let id = RequestId::from_str("POST::create").unwrap();
    assert_eq!((id.method.as_str(), id.url_or_name.as_str()), ("POST", "create"));
    let id = RequestId::from_str("GET::http://x/a::b").unwrap();
    assert_eq!((id.method.as_str(), id.url_or_name.as_str()), ("GET", "http://x/a"));
    let id = RequestId::from_str("a:b::c").unwrap();
    assert_eq!((id.method.as_str(), id.url_or_name.as_str()), ("a:b", "c"));
    let id = RequestId::from_str(":::").unwrap();
    assert_eq!((id.method.as_str(), id.url_or_name.as_str()), ("", ":"));
    let id = RequestId::from_str("GET::").unwrap();
    assert_eq!((id.method.as_str(), id.url_or_name.as_str()), ("GET", ""));
    assert_eq!(RequestId::from_str("GET").unwrap_err(), "failed to get url or name from string");
    assert_eq!(RequestId::from_str("").unwrap_err(), "failed to get url or name from string");
    assert_eq!(RequestId::from_str("GET:x").unwrap_err(), "failed to get url or name from string");
    let text = RequestId { method: "DELETE".to_string(), url_or_name: "http://é/x:y".to_string() }.as_string();
    let back = RequestId::from_str(&text).unwrap();
    assert_eq!((back.method.as_str(), back.url_or_name.as_str()), ("DELETE", "http://é/x:y"));
}
