use rested::lexer::TokenKind;
use rested::locations::{Location, Span};
use rested::parser::ast::{Endpoint, Expression, Item, RequestMethod, Statement};
use rested::parser::error::{ParseError, ParserErrors};
use rested::parser::Parser;

fn parse_ok(code: &str) -> Vec<Item<'_>> {
    let mut parser = Parser::new(code);
    match parser.parse() {
        Ok(program) => program.items,
        Err(e) => panic!("expected the program to parse, got {:?}", e.errors),
    }
}

fn parse_err(code: &str) -> ParserErrors<'_> {
    let mut parser = Parser::new(code);
    match parser.parse() {
        Ok(program) => panic!("expected errors, got {:?}", program.items),
        Err(e) => e,
    }
}

fn loc(line: usize, col: usize) -> Location {
    Location { line, col }
}

fn span(l1: usize, c1: usize, l2: usize, c2: usize) -> Span {
    Span { start: loc(l1, c1), end: loc(l2, c2) }
}

fn ml() -> TokenKind {
    TokenKind::MultiLineStringLiteral { head: false, tail: false }
}

fn is_request(item: &Item, m: RequestMethod, url: &str) -> bool {
    match item {
        Item::Request { method, endpoint, .. } => {
            *method == m
                && match endpoint {
                    Endpoint::Url(l) | Endpoint::Pathname(l) => l.value == url,
                }
        }
        _ => false,
    }
}

fn block_of<'a, 'i>(item: &'a Item<'i>) -> &'a Vec<Statement<'i>> {
    match item {
        Item::Request { block: Some(b), .. } => &b.statements,
        _ => panic!("not a request with a block: {:?}", item),
    }
}

fn string_value<'a>(e: &Expression<'a>) -> &'a str {
    match e {
        Expression::String(s) => s.value,
        _ => panic!("not a string: {:?}", e),
    }
}

fn object_fields<'a, 'i>(e: &'a Expression<'i>) -> &'a Vec<(&'i str, Expression<'i>)> {
    match e {
        Expression::Object((_, fields)) => fields,
        _ => panic!("not an object: {:?}", e),
    }
}

fn let_value<'a, 'i>(item: &'a Item<'i>, name: &str) -> &'a Expression<'i> {
    match item {
        Item::Let { identifier, value } => {
            assert_eq!(identifier.name, name);
            value
        }
        _ => panic!("not a let: {:?}", item),
    }
}

#[test]
fn expected_url_after_method() {
    let e = parse_err("get {}");
    assert_eq!(e.errors.len(), 1);
    match &e.errors[0].inner_error {
        ParseError::ExpectedEitherOfTokens { found, expected } => {
            assert_eq!(found.kind, TokenKind::LBracket);
            assert_eq!(found.text, "{");
            assert_eq!(*expected, vec![TokenKind::Url, TokenKind::Pathname]);
        }
        other => panic!("unexpected error {:?}", other),
    }
    assert_eq!(e.errors[0].span, span(0, 4, 0, 5));
    assert_eq!(e.incomplete_rogram.items.len(), 0);

    let e = parse_err("post");
    assert_eq!(e.errors.len(), 1);
    match &e.errors[0].inner_error {
        ParseError::ExpectedEitherOfTokens { found, expected } => {
            assert_eq!(found.kind, TokenKind::End);
            assert_eq!(*expected, vec![TokenKind::Url, TokenKind::Pathname]);
        }
        other => panic!("unexpected error {:?}", other),
    }
}

#[test]
fn expected_name_after_header_keyword() {
    let e = parse_err("post http://localhost {header}");
    assert_eq!(e.errors.len(), 1);
    assert_eq!(
        e.errors[0].inner_error,
        ParseError::ExpectedToken {
            found: rested::parser::error::TokenOwned { kind: TokenKind::RBracket, text: "}".to_string() },
            expected: TokenKind::StringLiteral,
        }
    );
    assert_eq!(e.errors[0].span, span(0, 29, 0, 30));
    assert_eq!(e.errors[0].message, None);
}

#[test]
fn expecting_identifier_or_string_lit_after_header_name() {
    let e = parse_err(r#"get http://localhost { header "name" }"#);
    assert_eq!(e.errors.len(), 1);
    match &e.errors[0].inner_error {
        ParseError::ExpectedEitherOfTokens { found, expected } => {
            assert_eq!(found.kind, TokenKind::RBracket);
            assert_eq!(*expected, vec![TokenKind::StringLiteral, TokenKind::Ident, ml()]);
        }
        other => panic!("unexpected error {:?}", other),
    }
    assert_eq!(e.errors[0].span, span(0, 37, 0, 38));
}

#[test]
fn expecting_request_or_other_attribute_after_attributes() {
    let e = parse_err(
        r#"
            @skip
            @dbg
            let k = "v"
            get http://localhost { header "name" k }"#,
    );
    assert_eq!(e.errors.len(), 1);
    match &e.errors[0].inner_error {
        ParseError::ExpectedEitherOfTokens { found, expected } => {
            assert_eq!(found.kind, TokenKind::Let);
            assert_eq!(found.text, "let");
            assert_eq!(
                *expected,
                vec![
                    TokenKind::Get,
                    TokenKind::Post,
                    TokenKind::Put,
                    TokenKind::Patch,
                    TokenKind::Delete,
                    TokenKind::AttributePrefix,
                    TokenKind::Linecomment,
                ]
            );
        }
        other => panic!("unexpected error {:?}", other),
    }
    assert_eq!(
        e.errors[0].message.as_deref(),
        Some("after attributes should come requests or more attributes")
    );
    assert_eq!(e.errors[0].span, span(3, 12, 3, 15));
    let items = &e.incomplete_rogram.items;
    assert_eq!(items.len(), 3);
    assert!(matches!(&items[0], Item::Attribute { identifier, .. } if identifier.name == "skip"));
    assert!(matches!(&items[1], Item::Let { identifier, .. } if identifier.name == "k"));
    assert!(is_request(&items[2], RequestMethod::GET, "http://localhost"));
}

#[test]
fn expecting_commas_between_certain_json_items() {
    let e = parse_err(
        r#"let o = {
                 yo: "joe"
                 hello: "world"
               }"#,
    );
    assert_eq!(e.errors.len(), 1);
    match &e.errors[0].inner_error {
        ParseError::ExpectedToken { found, expected } => {
            assert_eq!(found.kind, TokenKind::Ident);
            assert_eq!(found.text, "hello");
            assert_eq!(*expected, TokenKind::Comma);
        }
        other => panic!("unexpected error {:?}", other),
    }
    assert_eq!(e.errors[0].span, span(2, 17, 2, 22));
    assert_eq!(e.incomplete_rogram.items.len(), 0);

    let e = parse_err(r#" let o = ["joe" "world"] "#);
    assert_eq!(e.errors.len(), 1);
    match &e.errors[0].inner_error {
        ParseError::ExpectedToken { found, expected } => {
            assert_eq!(found.kind, TokenKind::StringLiteral);
            assert_eq!(found.text, "\"world\"");
            assert_eq!(*expected, TokenKind::Comma);
        }
        other => panic!("unexpected error {:?}", other),
    }
    assert_eq!(e.errors[0].span, span(0, 16, 0, 23));
}

#[test]
fn it_works() {
    let items = parse_ok(
        r#"
set BASE_URL "httas..."
post http://lasdf.. {}
// asdfasdf

let output_file = "output/file.json"
let token = env("auth-token")

@log(output_file)
post /asd {
  // asdfasd
  header "Authorization" token
  body `{
      "neet": "${env("var")}",
      "nerd": "${output_file}",
  }`
}

@skip
get /api {}

put /api {}
patch /api {}
delete /api {}
"#,
    );
    assert_eq!(items.len(), 12);
    match &items[0] {
        Item::SetConstant { identifier, value } => {
            assert_eq!(identifier.name, "BASE_URL");
            assert_eq!(identifier.span, span(1, 4, 1, 12));
            assert_eq!(string_value(value), "httas...");
        }
        other => panic!("unexpected {:?}", other),
    }
    assert!(is_request(&items[1], RequestMethod::POST, "http://lasdf.."));
    assert_eq!(block_of(&items[1]).len(), 0);
    assert!(matches!(&items[2], Item::LineComment(l) if l.value == "// asdfasdf"));
    assert_eq!(string_value(let_value(&items[3], "output_file")), "output/file.json");
    match let_value(&items[4], "token") {
        Expression::Call { identifier, arguments } => {
            assert_eq!(identifier.name, "env");
            assert_eq!(arguments.len(), 1);
            assert_eq!(string_value(&arguments[0]), "auth-token");
        }
        other => panic!("unexpected {:?}", other),
    }
    match &items[5] {
        Item::Attribute { location, identifier, parameters } => {
            assert_eq!(*location, loc(8, 0));
            assert_eq!(identifier.name, "log");
            assert_eq!(parameters.len(), 1);
            assert!(matches!(&parameters[0], Expression::Identifier(i) if i.name == "output_file"));
        }
        other => panic!("unexpected {:?}", other),
    }
    assert!(is_request(&items[6], RequestMethod::POST, "/asd"));
    let statements = block_of(&items[6]);
    assert_eq!(statements.len(), 3);
    assert!(matches!(&statements[0], Statement::LineComment(l) if l.value == "// asdfasd"));
    match &statements[1] {
        Statement::Header { name, value } => {
            assert_eq!(name.value, "Authorization");
            assert!(matches!(value, Expression::Identifier(i) if i.name == "token"));
        }
        other => panic!("unexpected {:?}", other),
    }
    match &statements[2] {
        Statement::Body { value: Expression::TemplateSringLiteral { parts, .. }, start } => {
            assert_eq!(*start, loc(12, 2));
            assert_eq!(parts.len(), 5);
            assert!(matches!(&parts[1], Expression::Call { identifier, .. } if identifier.name == "env"));
            assert!(matches!(&parts[3], Expression::Identifier(i) if i.name == "output_file"));
        }
        other => panic!("unexpected {:?}", other),
    }
    assert!(matches!(&items[7], Item::Attribute { identifier, parameters, .. } if identifier.name == "skip" && parameters.is_empty()));
    assert!(is_request(&items[8], RequestMethod::GET, "/api"));
    assert!(is_request(&items[9], RequestMethod::PUT, "/api"));
    assert!(is_request(&items[10], RequestMethod::PATCH, "/api"));
    assert!(is_request(&items[11], RequestMethod::DELETE, "/api"));
}

#[test]
fn parser_parse_get_urls() {
    let items = parse_ok(
        r#"get http://localhost:8080
        get http://localhost:8080 {}"#,
    );
    assert_eq!(items.len(), 2);
    match &items[0] {
        Item::Request { method, endpoint: Endpoint::Url(l), block, span: s } => {
            assert_eq!(*method, RequestMethod::GET);
            assert_eq!(l.value, "http://localhost:8080");
            assert_eq!(l.span, span(0, 4, 0, 25));
            assert!(block.is_none());
            assert_eq!(*s, span(0, 0, 0, 25));
        }
        other => panic!("unexpected {:?}", other),
    }
    match &items[1] {
        Item::Request { method, endpoint: Endpoint::Url(l), block: Some(b), span: s } => {
            assert_eq!(*method, RequestMethod::GET);
            assert_eq!(l.span, span(1, 12, 1, 33));
            assert_eq!(b.statements.len(), 0);
            assert_eq!(b.span, span(1, 34, 1, 35));
            assert_eq!(*s, span(1, 8, 1, 35));
        }
        other => panic!("unexpected {:?}", other),
    }
}

#[test]
fn parser_parse_post_url() {
    let items = parse_ok("post http://localhost");
    assert_eq!(items.len(), 1);
    assert!(matches!(&items[0], Item::Request { method: RequestMethod::POST, endpoint: Endpoint::Url(l), block: None, .. } if l.value == "http://localhost"));

    let items = parse_ok("post /api/v2");
    assert_eq!(items.len(), 1);
    assert!(matches!(&items[0], Item::Request { method: RequestMethod::POST, endpoint: Endpoint::Pathname(l), block: None, .. } if l.value == "/api/v2"));
}

#[test]
fn parse_attributes() {
    let items = parse_ok(r#"@log("path/to/file") get /api"#);
    assert_eq!(items.len(), 2);
    match &items[0] {
        Item::Attribute { location, identifier, parameters } => {
            assert_eq!(*location, loc(0, 0));
            assert_eq!(identifier.name, "log");
            assert_eq!(identifier.span, span(0, 1, 0, 4));
            assert_eq!(parameters.len(), 1);
            assert_eq!(string_value(&parameters[0]), "path/to/file");
        }
        other => panic!("unexpected {:?}", other),
    }
    assert!(is_request(&items[1], RequestMethod::GET, "/api"));
}

#[test]
fn parse_attributes_ignoring_comments_after_them() {
    let items = parse_ok(
        r#"@log("path/to/file") 
                // ignored
                get /api"#,
    );
    assert_eq!(items.len(), 3);
    assert!(matches!(&items[0], Item::Attribute { identifier, .. } if identifier.name == "log"));
    assert!(matches!(&items[1], Item::LineComment(l) if l.value == "// ignored"));
    assert!(is_request(&items[2], RequestMethod::GET, "/api"));
}

fn assert_headers(statements: &Vec<Statement>, expected: &[(&str, &str)]) {
    let headers: Vec<(&str, &str)> = statements
        .iter()
        .filter_map(|s| match s {
            Statement::Header { name, value } => Some((name.value, string_value(value))),
            _ => None,
        })
        .collect();
    assert_eq!(headers, expected.to_vec());
}

#[test]
fn parser_parse_get_with_headers() {
    let items = parse_ok(
        r#"
        get http://localhost {
        header "Authorization" "Bearer token"
        header "random" "tokener Bear"
        }"#,
    );
    assert_eq!(items.len(), 1);
    assert!(is_request(&items[0], RequestMethod::GET, "http://localhost"));
    assert_headers(block_of(&items[0]), &[("Authorization", "Bearer token"), ("random", "tokener Bear")]);
}

#[test]
fn parser_parse_post_with_headers() {
    let items = parse_ok(
        r#"
        post http://localhost {
        header "Authorization" "Bearer token"
        header "random" "tokener Bear"
        }"#,
    );
    assert_eq!(items.len(), 1);
    assert!(is_request(&items[0], RequestMethod::POST, "http://localhost"));
    assert_headers(block_of(&items[0]), &[("Authorization", "Bearer token"), ("random", "tokener Bear")]);
}

#[test]
fn parser_parse_post_with_headers_and_body() {
    let items = parse_ok(
        r#"
        post http://localhost {
        header "Authorization" "Bearer token"
        body "{neet: 1337}"
        }"#,
    );
    assert_eq!(items.len(), 1);
    let statements = block_of(&items[0]);
    assert_eq!(statements.len(), 2);
    assert_headers(statements, &[("Authorization", "Bearer token")]);
    match &statements[1] {
        Statement::Body { value, start } => {
            assert_eq!(string_value(value), "{neet: 1337}");
            assert_eq!(*start, loc(3, 8));
        }
        other => panic!("unexpected {:?}", other),
    }
}

#[test]
fn parser_parse_post_with_headers_and_body_as_json_string() {
    let items = parse_ok(
        r#"
        post http://localhost {
        header "Authorization" "Bearer token"
        body `
        {"neet": 1337}
        `
        }"#,
    );
    assert_eq!(items.len(), 1);
    let statements = block_of(&items[0]);
    assert_eq!(statements.len(), 2);
    match &statements[1] {
        Statement::Body { value, .. } => {
            assert_eq!(string_value(value), "\n        {\"neet\": 1337}\n        ");
        }
        other => panic!("unexpected {:?}", other),
    }
}

#[test]
fn parser_parse_env_call_expression() {
    let items = parse_ok(r#"post http://localhost { header "name" env("auth") body env("data") }"#);
    assert_eq!(items.len(), 1);
    let statements = block_of(&items[0]);
    assert_eq!(statements.len(), 2);
    match &statements[0] {
        Statement::Header { name, value: Expression::Call { identifier, arguments } } => {
            assert_eq!(name.value, "name");
            assert_eq!(identifier.name, "env");
            assert_eq!(string_value(&arguments[0]), "auth");
        }
        other => panic!("unexpected {:?}", other),
    }
    match &statements[1] {
        Statement::Body { value: Expression::Call { identifier, arguments }, .. } => {
            assert_eq!(identifier.name, "env");
            assert_eq!(string_value(&arguments[0]), "data");
        }
        other => panic!("unexpected {:?}", other),
    }
}

#[test]
fn parse_global_constant_setting() {
    let items = parse_ok("set BASE_URL \"stuff\"");
    assert_eq!(items.len(), 1);
    match &items[0] {
        Item::SetConstant { identifier, value: Expression::String(s) } => {
            assert_eq!(identifier.name, "BASE_URL");
            assert_eq!(identifier.span, span(0, 4, 0, 12));
            assert_eq!(s.raw, "\"stuff\"");
            assert_eq!(s.value, "stuff");
            assert_eq!(s.span, span(0, 13, 0, 20));
        }
        other => panic!("unexpected {:?}", other),
    }
}

#[test]
fn parse_template_string_literal() {
    let items = parse_ok(
        r#"
        post /api {
            body `{"neet": ${env("love")}, 2: ${"two"}}`
        }"#,
    );
    assert_eq!(items.len(), 1);
    let statements = block_of(&items[0]);
    match &statements[0] {
        Statement::Body { value: Expression::TemplateSringLiteral { parts, .. }, .. } => {
            assert_eq!(parts.len(), 5);
            assert_eq!(string_value(&parts[0]), "{\"neet\": ");
            assert!(matches!(&parts[1], Expression::Call { identifier, .. } if identifier.name == "env"));
            assert_eq!(string_value(&parts[2]), ", 2: ");
            assert_eq!(string_value(&parts[3]), "two");
            assert_eq!(string_value(&parts[4]), "}");
        }
        other => panic!("unexpected {:?}", other),
    }
}

#[test]
fn parse_json_object() {
    let items = parse_ok(
        r#"
let o = {
    key: "value",
    akey: 123,
    love: "me"
}"#,
    );
    assert_eq!(items.len(), 1);
    let fields = object_fields(let_value(&items[0], "o"));
    let keys: Vec<&str> = fields.iter().map(|(k, _)| *k).collect();
    assert_eq!(keys, vec!["akey", "key", "love"]);
    assert!(matches!(&fields[0].1, Expression::Number(l) if l.value == "123"));
    assert_eq!(string_value(&fields[1].1), "value");
    assert_eq!(string_value(&fields[2].1), "me");
    match let_value(&items[0], "o") {
        Expression::Object((s, _)) => assert_eq!(*s, span(1, 8, 5, 1)),
        _ => unreachable!(),
    }
}

#[test]
fn parse_json_object_ignoring_comments() {
    let items = parse_ok(
        r#"
let o = {
    key: "value",
    // akey: 123,
    love: [
        "asdf",
        // asdf,
        12
    ]
}"#,
    );
    assert_eq!(items.len(), 1);
    let fields = object_fields(let_value(&items[0], "o"));
    let keys: Vec<&str> = fields.iter().map(|(k, _)| *k).collect();
    assert_eq!(keys, vec!["key", "love"]);
    match &fields[1].1 {
        Expression::Array((_, list)) => {
            assert_eq!(list.len(), 2);
            assert_eq!(string_value(&list[0]), "asdf");
            assert!(matches!(&list[1], Expression::Number(l) if l.value == "12"));
        }
        other => panic!("unexpected {:?}", other),
    }
}

#[test]
fn parse_json_object_allowing_trailing_comma() {
    let items = parse_ok(
        r#"
let o = {
    key: "value",
    akey: [1, 2, 3,],
    love: "me",
    "test": {a: "asdf", b: 1, c: 3,},
}"#,
    );
    assert_eq!(items.len(), 1);
    let fields = object_fields(let_value(&items[0], "o"));
    let keys: Vec<&str> = fields.iter().map(|(k, _)| *k).collect();
    assert_eq!(keys, vec!["akey", "key", "love", "test"]);
    assert!(matches!(&fields[0].1, Expression::Array((_, l)) if l.len() == 3));
    let inner = object_fields(&fields[3].1);
    let inner_keys: Vec<&str> = inner.iter().map(|(k, _)| *k).collect();
    assert_eq!(inner_keys, vec!["a", "b", "c"]);
}

#[test]
fn parse_json_object_deep() {
    let items = parse_ok(
        r#"
let o = {
    key: "value",
    akey: false,
    love: {
        hello: {
            w: "1",
            o: {
                two: 2.123,
                and: {}
            }
        }
    }
}"#,
    );
    assert_eq!(items.len(), 1);
    let fields = object_fields(let_value(&items[0], "o"));
    let keys: Vec<&str> = fields.iter().map(|(k, _)| *k).collect();
    assert_eq!(keys, vec!["akey", "key", "love"]);
    assert!(matches!(&fields[0].1, Expression::Bool(l) if l.value == "false"));
    let love = object_fields(&fields[2].1);
    assert_eq!(love[0].0, "hello");
    let hello = object_fields(&love[0].1);
    let hello_keys: Vec<&str> = hello.iter().map(|(k, _)| *k).collect();
    assert_eq!(hello_keys, vec!["o", "w"]);
    let o = object_fields(&hello[0].1);
    assert_eq!(o[0].0, "and");
    assert!(matches!(&o[0].1, Expression::EmptyObject(_)));
    assert_eq!(o[1].0, "two");
    assert!(matches!(&o[1].1, Expression::Number(l) if l.value == "2.123"));
}

#[test]
fn parse_json_object_with_array_keys() {
    let items = parse_ok(
        r#"
let o = {
    key: "value",
    akey: "234va",
    oKey: ["val", "val2"],
    aoKay: ["val", "123", {
        hey: "yo!",
        hello: "world"
    }]
}"#,
    );
    assert_eq!(items.len(), 1);
    let fields = object_fields(let_value(&items[0], "o"));
    let keys: Vec<&str> = fields.iter().map(|(k, _)| *k).collect();
    assert_eq!(keys, vec!["akey", "aoKay", "key", "oKey"]);
    match &fields[1].1 {
        Expression::Array((_, list)) => {
            assert_eq!(list.len(), 3);
            let inner = object_fields(&list[2]);
            let inner_keys: Vec<&str> = inner.iter().map(|(k, _)| *k).collect();
            assert_eq!(inner_keys, vec!["hello", "hey"]);
        }
        other => panic!("unexpected {:?}", other),
    }
}

#[test]
fn parse_json_object_with_call_expressions() {
    let items = parse_ok(
        r#"
let o = {
    key: read("test"),
    akey: env("url")
}"#,
    );
    assert_eq!(items.len(), 1);
    let fields = object_fields(let_value(&items[0], "o"));
    assert_eq!(fields[0].0, "akey");
    assert!(matches!(&fields[0].1, Expression::Call { identifier, arguments } if identifier.name == "env" && arguments.len() == 1));
    assert_eq!(fields[1].0, "key");
    assert!(matches!(&fields[1].1, Expression::Call { identifier, .. } if identifier.name == "read"));
}

#[test]
fn later_fields_replace_earlier_ones_with_the_same_key() {
    let items = parse_ok(r#"let o = { a: "1", "a": "2" }"#);
    let fields = object_fields(let_value(&items[0], "o"));
    assert_eq!(fields.len(), 1);
    assert_eq!(string_value(&fields[0].1), "2");
}

#[test]
fn errors_are_reported_for_each_failing_item_and_parsing_resumes() {
    let e = parse_err("get {}\npost /a\nset 1\nget /b");
    assert_eq!(e.errors.len(), 2);
    let items = &e.incomplete_rogram.items;
    assert_eq!(items.len(), 2);
    assert!(is_request(&items[0], RequestMethod::POST, "/a"));
    assert!(is_request(&items[1], RequestMethod::GET, "/b"));
    assert!(matches!(&e.errors[1].inner_error, ParseError::ExpectedToken { expected: TokenKind::Ident, .. }));
}

#[test]
fn an_empty_text_is_an_empty_program() {
    assert_eq!(parse_ok("").len(), 0);
    assert_eq!(parse_ok("   \n  ").len(), 0);
}
