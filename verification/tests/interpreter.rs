use rested::error_meta::ErrorKind;
use rested::interpreter::error::{not_found_text, InterpError};
use rested::interpreter::ir::{run_outcomes, LogDestination, RunResponse};
use rested::interpreter::lines::{escaping_new_lines, indent_lines};
use rested::interpreter::runtime::{AttributeStore, Environment};
use rested::interpreter::{interpret_program, pick_requests, select_requests, Halt, Interpreter};
use rested::locations::{Location, Span};
use rested::parser::ast::{Identifier, RequestMethod};

fn env_with(vars: &[(&str, &str)]) -> Environment {
    let vars: Vec<(String, String)> = vars.iter().map(|(k, v)| (k.to_string(), v.to_string())).collect();
    Environment::new(".vars.rd.json".to_string(), Some(vec![("default".to_string(), vars)]))
}

fn evaluate(code: &str, env: Environment) -> Result<Vec<rested::interpreter::ir::RequestItem>, Halt> {
    let mut interpreter = Interpreter::new(code, env);
    interpreter.evaluate(&Vec::new())
}

fn error_of(r: Result<Vec<rested::interpreter::ir::RequestItem>, Halt>) -> rested::error_meta::ContextualError<InterpError> {
    match r {
        Err(Halt::Errors(mut e)) => e.remove(0),
        Err(Halt::ReadFile(p)) => panic!("asked to read {p}"),
        Ok(reqs) => panic!("expected an error, got {:?}", reqs),
    }
}

#[test]
fn requests_are_evaluated_with_the_base_url_and_headers() {
    let code = r#"
        set BASE_URL env("b_url")

        get /api
        get /api/v2 {
           header "Authorization" env("token")
        }

        post /api {
           header "Authorization" env("token")
           body "data"
        }
    "#;
    let reqs = evaluate(code, env_with(&[("b_url", "http://localhost:1234"), ("token", "asl236ap9sdhf")])).unwrap();
    assert_eq!(reqs.len(), 3);
    assert_eq!(reqs[0].request.method, RequestMethod::GET);
    assert_eq!(reqs[0].request.url, "http://localhost:1234/api");
    assert_eq!(reqs[1].request.url, "http://localhost:1234/api/v2");
    assert_eq!(reqs[1].request.headers.len(), 1);
    assert_eq!(reqs[1].request.headers[0].name, "Authorization");
    assert_eq!(reqs[1].request.headers[0].value, "asl236ap9sdhf");
    assert_eq!(reqs[2].request.method, RequestMethod::POST);
    assert_eq!(reqs[2].request.body.as_deref(), Some("data"));
    assert!(reqs.iter().all(|r| r.name.is_none() && !r.dbg && r.log_destination.is_none()));
}

#[test]
fn comments_and_expressions_are_ignored() {
    let code = r#"
        set BASE_URL "http://x"
        // a comment
        get /api
        "just an expression"
        get /api/v2
    "#;
    let reqs = evaluate(code, env_with(&[])).unwrap();
    assert_eq!(reqs.len(), 2);
    assert_eq!(reqs[1].request.url, "http://x/api/v2");
}

#[test]
fn skipped_requests_are_left_out_and_attributes_apply_once() {
    let code = r#"
        set BASE_URL "http://x"
        @skip
        get /one
        post /two
        @name("three")
        @dbg
        @log
        put /three
        delete /four
    "#;
    let reqs = evaluate(code, env_with(&[])).unwrap();
    assert_eq!(reqs.len(), 3);
    assert_eq!(reqs[0].request.url, "http://x/two");
    assert_eq!(reqs[1].name.as_deref(), Some("three"));
    assert!(reqs[1].dbg);
    assert!(matches!(reqs[1].log_destination, Some(LogDestination::Std)));
    assert!(reqs[2].name.is_none() && !reqs[2].dbg && reqs[2].log_destination.is_none());
}

#[test]
fn let_bindings_and_templates_are_evaluated() {
    let code = r#"
        let token = "12345"
        let bearer = `Bearer ${token}`
        post http://x/api {
            header "Authorization" bearer
            body `a${"b"}c`
            body "second body is ignored"
        }
    "#;
    let reqs = evaluate(code, env_with(&[])).unwrap();
    assert_eq!(reqs.len(), 1);
    assert_eq!(reqs[0].request.headers[0].value, "Bearer 12345");
    assert_eq!(reqs[0].request.body.as_deref(), Some("abc"));
}

#[test]
fn a_path_needs_a_base_url() {
    let e = error_of(evaluate("get /api", env_with(&[])));
    assert_eq!(e.inner_error, InterpError::RequestWithPathnameWithoutBaseUrl);
    assert_eq!(e.span, Span { start: Location { line: 0, col: 4 }, end: Location { line: 0, col: 8 } });
}

#[test]
fn the_path_slash_alone_is_the_base_url() {
    let reqs = evaluate("set BASE_URL \"http://x\"\nget /", env_with(&[])).unwrap();
    assert_eq!(reqs[0].request.url, "http://x");
}

#[test]
fn name_attribute_requires_value() {
    let e = error_of(evaluate("set BASE_URL \"http://x\"\n@name\nget /api {}", env_with(&[])));
    assert_eq!(e.inner_error, InterpError::RequiredArguments { required: 1, recieved: 0 });
    assert_eq!(e.message.as_deref(), Some("@name(..) must be given an argument, like @name(\"req_1\")"));
}

#[test]
fn prevents_duplicate_attributes() {
    let code = "set BASE_URL env(\"b_url\")\n@log\n@log\nget /api {}";
    let e = error_of(evaluate(code, env_with(&[("b_url", "asdfasdf")])));
    assert_eq!(e.inner_error, InterpError::DuplicateAttribute { name: "log".to_string() });
    assert_eq!(e.inner_error.describe(), "duplicate attribute: @log is already set for this request");
    assert_eq!(e.span.start, Location { line: 2, col: 1 });
    let code = "set BASE_URL env(\"b_url\")\n@name(\"a\")\n@name(\"b\")\nget /api {}";
    let e = error_of(evaluate(code, env_with(&[("b_url", "asdfasdf")])));
    assert_eq!(e.inner_error, InterpError::DuplicateAttribute { name: "name".to_string() });
    assert_eq!(e.inner_error.describe(), "duplicate attribute: @name is already set for this request");
}

#[test]
fn every_failing_item_is_reported() {
    let code = "set OTHER \"v\"\nlet a = b\nget http://x\n@nope\nget /api";
    match evaluate(code, env_with(&[])) {
        Err(Halt::Errors(es)) => {
            let kinds: Vec<InterpError> = es.into_iter().map(|e| e.inner_error).collect();
            assert_eq!(
                kinds,
                vec![
                    InterpError::UnknownConstant { constant: "OTHER".to_string() },
                    InterpError::UndeclaredIdentifier { name: "b".to_string() },
                    InterpError::UnsupportedAttribute { name: "nope".to_string() },
                    InterpError::RequestWithPathnameWithoutBaseUrl,
                ]
            );
        }
        other => panic!("unexpected {:?}", other),
    }
}

#[test]
fn every_parse_error_is_reported() {
    match evaluate("get {}\nlet\npost", env_with(&[])) {
        Err(Halt::Errors(es)) => assert!(es.len() >= 2),
        other => panic!("unexpected {:?}", other),
    }
}

#[test]
fn a_missing_namespace_matters_only_to_env_calls() {
    let mut env = env_with(&[("a", "1")]);
    env.select_variables_namespace("nowhere".to_string());
    let reqs = evaluate("get http://x", env).unwrap();
    assert_eq!(reqs.len(), 1);
    let mut env = env_with(&[("a", "1")]);
    env.select_variables_namespace("nowhere".to_string());
    let e = error_of(evaluate("get http://x { body env(\"a\") }", env));
    assert_eq!(e.inner_error, InterpError::EnvVariableNotFound { name: "a".to_string() });
}

#[test]
fn unknown_things_are_errors() {
    let e = error_of(evaluate("@nope\nget http://x", env_with(&[])));
    assert_eq!(e.inner_error, InterpError::UnsupportedAttribute { name: "nope".to_string() });
    let e = error_of(evaluate("set OTHER \"v\"", env_with(&[])));
    assert_eq!(e.inner_error, InterpError::UnknownConstant { constant: "OTHER".to_string() });
    let e = error_of(evaluate("let a = b", env_with(&[])));
    assert_eq!(e.inner_error, InterpError::UndeclaredIdentifier { name: "b".to_string() });
    let e = error_of(evaluate("let a = nope(\"x\")", env_with(&[])));
    assert_eq!(e.inner_error, InterpError::UndefinedCallable { name: "nope".to_string() });
    let e = error_of(evaluate("let a = env(\"missing\")", env_with(&[])));
    assert_eq!(e.inner_error, InterpError::EnvVariableNotFound { name: "missing".to_string() });
    assert_eq!(e.inner_error.describe(), "no variable found by the name \"missing\"");
    let e = error_of(evaluate("let a = env()", env_with(&[])));
    assert_eq!(e.inner_error.describe(), "1 argument(s) required, recieved 0");
}

#[test]
fn parse_errors_come_first() {
    let e = error_of(evaluate("get {}", env_with(&[])));
    assert!(matches!(e.inner_error, InterpError::Other { .. }));
    assert_eq!(e.span, Span { start: Location { line: 0, col: 4 }, end: Location { line: 0, col: 5 } });
}

#[test]
fn files_are_asked_for_then_read() {
    let code = "post http://x { body read(\"data.json\") }";
    let mut interpreter = Interpreter::new(code, env_with(&[]));
    match interpreter.evaluate(&Vec::new()) {
        Err(Halt::ReadFile(p)) => assert_eq!(p, "data.json"),
        other => panic!("unexpected {:?}", other),
    }
    let files = vec![("data.json".to_string(), Ok::<String, String>("{\"a\": 1}".to_string()))];
    let reqs = interpreter.evaluate(&files).unwrap();
    assert_eq!(reqs[0].request.body.as_deref(), Some("{\"a\": 1}"));
    let files = vec![("data.json".to_string(), Err::<String, String>("not found".to_string()))];
    match interpreter.evaluate(&files) {
        Err(Halt::Errors(e)) => assert_eq!(e[0].inner_error.describe(), "Error reading file 'data.json': not found"),
        other => panic!("unexpected {:?}", other),
    }
}

#[test]
fn escape_new_lines_and_indentation() {
    assert_eq!(escaping_new_lines("a\nb\r\nc"), "a\\nb\\nc\\n");
    assert_eq!(escaping_new_lines(""), "");
    assert_eq!(escaping_new_lines("x\n"), "x\\n");
    assert_eq!(indent_lines("a\nb", 2), "  a\n  b");
    assert_eq!(indent_lines("", 3), "");
    let reqs = evaluate("post http://x { body escape_new_lines(`l1\nl2`) }", env_with(&[])).unwrap();
    assert_eq!(reqs[0].request.body.as_deref(), Some("l1\\nl2\\n"));
}

#[test]
fn only_named_requests_are_selected() {
    let code = "@name(\"a\")\nget http://x/1\nget http://x/2\n@name(\"b\")\nget http://x/3";
    let reqs = evaluate(code, env_with(&[])).unwrap();
    let all = select_requests(evaluate(code, env_with(&[])).unwrap(), &None);
    assert_eq!(all.len(), 3);
    let some = select_requests(reqs, &Some(vec!["b".to_string()]));
    assert_eq!(some.len(), 1);
    assert_eq!(some[0].request.url, "http://x/3");
}

#[test]
fn environment_reads_what_was_written() {
    let mut env = Environment::new("f".to_string(), None);
    assert_eq!(env.get_variable_value("k".to_string()), None);
    env.set_variable("k".to_string(), "v".to_string()).unwrap();
    env.set_variable("k".to_string(), "w".to_string()).unwrap();
    assert_eq!(env.get_variable_value("k".to_string()).map(|s| s.as_str()), Some("w"));
    assert_eq!(env.namespaced_variables[0].1.len(), 1);
    env.select_variables_namespace("other".to_string());
    assert_eq!(env.selected_namespace(), "other");
    assert_eq!(
        env.set_variable("k".to_string(), "v".to_string()),
        Err("undefined namespace 'other'".to_string())
    );
}

#[test]
fn attribute_store_keeps_the_first_of_a_name() {
    let mut store = AttributeStore::new();
    let span = Span { start: Location { line: 0, col: 1 }, end: Location { line: 0, col: 4 } };
    store.add(Identifier { name: "log", span }, Vec::new());
    assert!(store.has("log"));
    assert!(!store.has("dbg"));
    let other = Span { start: Location { line: 2, col: 1 }, end: Location { line: 2, col: 4 } };
    store.add(Identifier { name: "log", span: other }, Vec::new());
    assert_eq!(store.get("log").unwrap().location, Location { line: 0, col: 1 });
    assert!(store.get("log").unwrap().first_params().is_none());
    store.clear();
    assert!(!store.has("log"));
}

#[test]
fn the_runner_picks_unnamed_requests_by_url() {
    let code = "@name(\"a\")\nget http://x/1\nget http://x/2";
    let reqs = evaluate(code, env_with(&[])).unwrap();
    let picked = pick_requests(reqs, &Some(vec!["http://x/2".to_string(), "a".to_string()]));
    assert_eq!(picked.len(), 2);
    let reqs = evaluate(code, env_with(&[])).unwrap();
    let picked = pick_requests(reqs, &Some(vec!["http://x/1".to_string()]));
    assert_eq!(picked.len(), 0);
    let reqs = evaluate(code, env_with(&[])).unwrap();
    assert_eq!(pick_requests(reqs, &None).len(), 2);
}

#[test]
fn requests_work() {
    let url = "http://127.0.0.1:4567";
    let token = "asl236ap9sdhf";
    let code = r#"
        set BASE_URL env("b_url")

        get /api
        get /api/v2 {
           header "Authorization" env("token")
        }

        post /api {
           header "Authorization" env("token")
           body "data"
        }

        put /api {
           header "Authorization" env("token")
           body "data"
        }

        patch /api {
           header "Authorization" env("token")
           body "data"
        }

        delete /api {
           header "Authorization" env("token")
        }
    "#;
    let reqs = evaluate(code, env_with(&[("b_url", url), ("token", token)])).unwrap();
    let expected = [
        (RequestMethod::GET, "/api", false, None),
        (RequestMethod::GET, "/api/v2", true, None),
        (RequestMethod::POST, "/api", true, Some("data")),
        (RequestMethod::PUT, "/api", true, Some("data")),
        (RequestMethod::PATCH, "/api", true, Some("data")),
        (RequestMethod::DELETE, "/api", true, None),
    ];
    assert_eq!(reqs.len(), expected.len());
    for (req, (method, path, authorized, body)) in reqs.iter().zip(expected.iter()) {
        assert_eq!(req.request.method, *method);
        assert_eq!(req.request.url, format!("{url}{path}"));
        if *authorized {
            assert_eq!(req.request.headers.len(), 1);
            assert_eq!(req.request.headers[0].name, "Authorization");
            assert_eq!(req.request.headers[0].value, token);
        } else {
            assert!(req.request.headers.is_empty());
        }
        assert_eq!(req.request.body.as_deref(), *body);
    }
}

#[test]
fn comments_are_ignored() {
    let url = "http://127.0.0.1:4567";
    let code = format!(
        r#"
        // set BASE_URL env("b_url")
        // get /api
        // @skip
        get {url}/api/v2 {{
            // header Aas "test"
        }}
    "#
    );
    let reqs = evaluate(&code, env_with(&[])).unwrap();
    assert_eq!(reqs.len(), 1);
    assert_eq!(reqs[0].request.method, RequestMethod::GET);
    assert_eq!(reqs[0].request.url, format!("{url}/api/v2"));
    assert!(reqs[0].request.headers.is_empty());
}

#[test]
fn requests_are_skippable() {
    let url = "http://127.0.0.1:4567";
    let code = r#"
        set BASE_URL env("b_url")
        get /api 
        @skip
        get /api 

        post /api 
        @skip
        post /api 

        put /api 
        @skip
        put /api 

        patch /api 
        @skip
        patch /api 

        delete /api 
        @skip
        delete /api 
    "#;
    let reqs = evaluate(code, env_with(&[("b_url", url)])).unwrap();
    let methods = [RequestMethod::GET, RequestMethod::POST, RequestMethod::PUT, RequestMethod::PATCH, RequestMethod::DELETE];
    assert_eq!(reqs.len(), methods.len());
    for (req, method) in reqs.iter().zip(methods.iter()) {
        assert_eq!(req.request.method, *method);
        assert_eq!(req.request.url, format!("{url}/api"));
    }
}

#[test]
fn let_bindings_work() {
    let url = "http://127.0.0.1:4567";
    let env = env_with(&[("test", "12345"), ("b_url", url)]);
    let code = r#"
        set BASE_URL env("b_url")

        let variable = env("test")
        let o_variable = "asdf"

        post /api {
            header "test" variable
            header "test1" o_variable
        }
    "#;
    let reqs = evaluate(code, env).unwrap();
    assert_eq!(reqs.len(), 1);
    assert_eq!(reqs[0].request.method, RequestMethod::POST);
    assert_eq!(reqs[0].request.url, format!("{url}/api"));
    let headers: Vec<(&str, &str)> =
        reqs[0].request.headers.iter().map(|h| (h.name.as_str(), h.value.as_str())).collect();
    assert_eq!(headers, vec![("test", "12345"), ("test1", "asdf")]);
}

#[test]
fn running_specific_requests_by_name() {
    let url = "http://127.0.0.1:4567";
    let code = r#"
        set BASE_URL env("b_url")

        get /api 
        post /api 
        put /api 

        @name("test")
        get /api 

        @name("test")
        post /api 

        @name("test")
        put /api 

        @name("nope")
        delete /api
    "#;
    let reqs = evaluate(code, env_with(&[("b_url", url)])).unwrap();
    let run = select_requests(reqs, &Some(vec!["test".to_string()]));
    let methods = [RequestMethod::GET, RequestMethod::POST, RequestMethod::PUT];
    assert_eq!(run.len(), methods.len());
    for (req, method) in run.iter().zip(methods.iter()) {
        assert_eq!(req.request.method, *method);
        assert_eq!(req.request.url, format!("{url}/api"));
        assert_eq!(req.name.as_deref(), Some("test"));
    }
    assert!(run.iter().all(|r| r.request.method != RequestMethod::DELETE));
}

#[test]
fn ignores_expression_items() {
    let code = r#"
env("test") 
read("file")

// obj literal
{
    key: "value",
    oKey: ["1", "2"]
}

// string literal expression
"adsf"
        "#;
    let reqs = evaluate(code, env_with(&[])).unwrap();
    assert!(reqs.is_empty());
}

#[test]
fn a_missing_variable_is_named_as_debug_writes_it() {
    assert_eq!(not_found_text("\"x\""), "no variable found by the name \"x\"");
    let e = InterpError::EnvVariableNotFound { name: "a\"b\nc".to_string() };
    assert_eq!(e.describe(), format!("no variable found by the name {:?}", "a\"b\nc"));
    assert_eq!(e.describe(), "no variable found by the name \"a\\\"b\\nc\"");
}

#[test]
fn adjacent_interpolations_are_each_evaluated() {
    let code = "let a = \"1\"\nlet b = \"2\"\npost http://x { body `${a}${b}` }";
    let reqs = evaluate(code, env_with(&[])).unwrap();
    assert_eq!(reqs[0].request.body.as_deref(), Some("12"));
}

#[test]
fn request_with_json_like_data() {
    let code = r#"
set BASE_URL env("b_url")

post /api {
    header "Content-Type" "application/json"
    body {
        neet: 1337,
        nothing: null,
        arr: ["yo", {h: "i"}],
        "hello": {
            w: env("hello"),
            warudo: env(env("hi")),
            "fun": true,
            notFun: false,
            e: {},
            em: []
        },
    }
}
        "#;
    let url = "http://127.0.0.1:4567";
    let env = env_with(&[("b_url", url), ("hello", "world"), ("hi", "hello")]);
    let reqs = evaluate(code, env).unwrap();
    assert_eq!(reqs.len(), 1);
    assert_eq!(reqs[0].request.method, RequestMethod::POST);
    assert_eq!(reqs[0].request.url, format!("{url}/api"));
    assert_eq!(reqs[0].request.headers[0].name, "Content-Type");
    assert_eq!(reqs[0].request.headers[0].value, "application/json");
    let body: serde_json::Value = serde_json::from_str(reqs[0].request.body.as_deref().unwrap()).unwrap();
    let expected: serde_json::Value = serde_json::from_str(
        r#"{"neet": 1337, "nothing": null, "arr": ["yo", {"h": "i"}], "hello": {"w": "world", "warudo": "world", "fun": true, "notFun": false, "e": {}, "em": []}}"#,
    )
    .unwrap();
    assert_eq!(body, expected);
    assert_eq!(
        reqs[0].request.body.as_deref(),
        Some(r#"{"arr":["yo",{"h":"i"}],"hello":{"e":{},"em":[],"fun":true,"notFun":false,"w":"world","warudo":"world"},"neet":1337,"nothing":null}"#)
    );
}

#[test]
fn json_writes_values_as_json() {
    let code = "let q = env(\"v\")\npost http://x {\n header \"h\" json(q)\n body json([1, q, {k: `${q}!`}])\n}";
    let reqs = evaluate(code, env_with(&[("v", "a\"b")])).unwrap();
    assert_eq!(reqs[0].request.headers[0].value, "\"a\\\"b\"");
    assert_eq!(reqs[0].request.body.as_deref(), Some("[1,\"a\\\"b\",{\"k\":\"a\\\"b!\"}]"));
    let e = error_of(evaluate("let a = json()", env_with(&[])));
    assert_eq!(e.message.as_deref(), Some("calls to json(..) must include an argument"));
    let e = error_of(evaluate("let a = nope(1)", env_with(&[])));
    assert_eq!(
        e.message.as_deref(),
        Some("env(..), read(..), json(..), and escape_new_lines(..) are the only calls supported")
    );
}

#[test]
fn each_run_request_gets_its_id_and_outcome() {
    let code = "@name(\"first\")\nget http://x/a\npost http://x/b\n";
    let reqs = evaluate(code, env_with(&[])).unwrap();
    let outcomes = run_outcomes(&reqs, vec![Ok("fine".to_string()), Err("refused".to_string())]);
    assert_eq!(outcomes.len(), 2);
    assert_eq!(outcomes[0].0.method, "GET");
    assert_eq!(outcomes[0].0.url_or_name, "first");
    assert!(matches!(&outcomes[0].1, RunResponse::Success(t) if t == "fine"));
    assert_eq!(outcomes[1].0.method, "POST");
    assert_eq!(outcomes[1].0.url_or_name, "http://x/b");
    assert!(matches!(&outcomes[1].1, RunResponse::Failure(t) if t == "refused"));
}

#[test]
fn interpret_program_gives_the_requests_or_every_error() {
    let reqs = interpret_program("get http://x/a\npost http://x/b\n", env_with(&[]), &Vec::new()).unwrap();
    assert_eq!(reqs.len(), 2);
    assert_eq!(reqs[1].request.url, "http://x/b");
    match interpret_program("get /a\nget /b\n", env_with(&[]), &Vec::new()) {
        Err(Halt::Errors(errors)) => assert_eq!(errors.len(), 2),
        other => panic!("expected two errors, got {:?}", other.map(|r| r.len())),
    }
}

#[test]
fn json_strings_escape_quotes_backslashes_and_control_characters() {
    let code = "post http://x {\n body json(env(\"v\"))\n}";
    let reqs = evaluate(code, env_with(&[("v", "q\"b\\n\nt\tc\u{1}é")])).unwrap();
    assert_eq!(reqs[0].request.body.as_deref(), Some("\"q\\\"b\\\\n\\nt\\tc\\u0001é\""));
}

#[test]
fn an_environment_file_gives_its_namespaces() {
    let env = Environment::from_file_text(
        "f.json".to_string(),
        r#"{"default": {"a": "1"}, "prod": {"a": "2", "b": "3"}}"#,
    );
    assert_eq!(env.env_file_name, "f.json");
    assert_eq!(env.get_variable_value("a".to_string()).map(|s| s.as_str()), Some("1"));
    let mut names: Vec<&str> = env.namespaced_variables.iter().map(|(n, _)| n.as_str()).collect();
    names.sort();
    assert_eq!(names, vec!["default", "prod"]);
    let bad = Environment::from_file_text("f.json".to_string(), "not json");
    assert_eq!(bad.namespaced_variables, vec![("default".to_string(), vec![])]);
}
