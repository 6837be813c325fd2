use rested::language_server::position::{ContainsPosition, EditorPosition};
use rested::lexer::locations::{Position, Span};
use rested::interpreter::runtime::Environment;
use rested::language_server::completions::{completion_kind, SuggestionKind};
use rested::language_server::hover::hover_docs;
use rested::language_server::warnings::env_var_warnings;

const SPAN: Span = Span {
    start: Position { value: 4, line: 0, col: 4 },
    end: Position { value: 9, line: 0, col: 9 },
};

const NO_SPAN: Span = Span {
    start: Position { value: 13, line: 1, col: 12 },
    end: Position { value: 13, line: 1, col: 12 },
};

#[test]
fn test_contains() {
    let position = &EditorPosition { line: 0, character: 4 };
    assert!(SPAN.contains(position));

    let position = &EditorPosition { line: 0, character: 7 };
    assert!(SPAN.contains(position));

    let position = &EditorPosition { line: 0, character: 10 };
    assert!(!SPAN.contains(position));

    let position = &EditorPosition { line: 2, character: 4 };
    assert!(!SPAN.contains(position));

    assert!(NO_SPAN.contains(&EditorPosition { line: 1, character: 12 }))
}

#[test]
fn test_is_after() {
    assert!(SPAN.is_after(&EditorPosition { line: 0, character: 1 }))
}

#[test]
fn a_span_over_several_lines_holds_each_of_its_lines() {
    let span = Span {
        start: Position { value: 0, line: 1, col: 8 },
        end: Position { value: 30, line: 3, col: 2 },
    };
    assert!(span.contains(&EditorPosition { line: 2, character: 100 }));
    assert!(span.contains(&EditorPosition { line: 1, character: 0 }));
    assert!(!span.contains(&EditorPosition { line: 4, character: 0 }));
    assert!(!span.is_after(&EditorPosition { line: 2, character: 0 }));
    assert!(span.is_after(&EditorPosition { line: 1, character: 7 }));
    assert!(!span.is_after(&EditorPosition { line: 1, character: 8 }));
}

#[test]
fn on_or_after_is_after_or_inside() {
    assert!(SPAN.is_on_or_after(&EditorPosition { line: 0, character: 9 }));
    assert!(SPAN.is_on_or_after(&EditorPosition { line: 0, character: 0 }));
    assert!(!SPAN.is_on_or_after(&EditorPosition { line: 0, character: 10 }));
    assert!(!SPAN.is_on_or_after(&EditorPosition { line: 1, character: 0 }));
}

fn env_with(vars: &[(&str, &str)]) -> Environment {
    let vars: Vec<(String, String)> = vars.iter().map(|(k, v)| (k.to_string(), v.to_string())).collect();
    Environment::new(".vars.rd.json".to_string(), Some(vec![("default".to_string(), vars)]))
}

const REQUEST: &str = "get http://localhost/api {\n  header \"a\" env(\"tok\")\n}\n";

#[test]
fn inside_a_request_block_the_statement_keywords_are_offered() {
    assert_eq!(completion_kind("get /api {\n    \n}\n", 1, 4), Some(SuggestionKind::StatementKeywords));
}

#[test]
fn outside_every_item_the_item_keywords_are_offered() {
    assert_eq!(completion_kind("get /api\n\nlet x = \"y\"\n", 1, 0), Some(SuggestionKind::ItemKeywords));
}

#[test]
fn on_the_name_of_a_set_item_the_constants_are_offered() {
    assert_eq!(completion_kind("set BASE_URL \"x\"\n", 0, 5), Some(SuggestionKind::SetIdentifiers));
}

#[test]
fn inside_the_string_of_an_env_call_the_variables_are_offered() {
    assert_eq!(completion_kind(REQUEST, 1, 19), Some(SuggestionKind::EnvVars));
}

#[test]
fn on_the_name_of_an_attribute_the_attributes_are_offered() {
    assert_eq!(completion_kind("@name(\"a\")\nget /api\n", 0, 2), Some(SuggestionKind::Attributes));
}

#[test]
fn a_text_that_does_not_parse_offers_the_functions() {
    assert_eq!(completion_kind("let = 1", 0, 4), Some(SuggestionKind::Functions));
}

#[test]
fn hovering_a_string_in_an_env_call_shows_the_variable() {
    let env = env_with(&[("tok", "secret")]);
    assert_eq!(hover_docs(REQUEST, env, &Vec::new(), 1, 19), Some("secret".to_string()));
}

#[test]
fn hovering_a_builtin_shows_its_documentation() {
    let env = env_with(&[("tok", "secret")]);
    let docs = hover_docs(REQUEST, env, &Vec::new(), 1, 14).unwrap();
    assert_eq!(
        docs,
        [
            "Read env file to grab values.",
            "Read `.env.rd.json` from the current workspace if there is one,",
            "otherwise read that in the home directory.",
            "```typescript",
            "(builtin) env(variable: string): string",
            "```",
        ]
        .join("\n")
    );
}

#[test]
fn hovering_an_endpoint_shows_the_evaluated_url() {
    let env = env_with(&[("tok", "secret")]);
    assert_eq!(hover_docs(REQUEST, env, &Vec::new(), 0, 6), Some("http://localhost/api".to_string()));
}

#[test]
fn hovering_a_part_with_nothing_to_show_gives_an_empty_text() {
    let env = env_with(&[("tok", "secret")]);
    assert_eq!(hover_docs(REQUEST, env, &Vec::new(), 1, 10), Some(String::new()));
}

#[test]
fn hovering_outside_every_item_shows_nothing() {
    let env = env_with(&[("tok", "secret")]);
    assert_eq!(hover_docs(REQUEST, env, &Vec::new(), 5, 0), None);
}

#[test]
fn hovering_a_program_that_fails_to_evaluate_shows_nothing() {
    assert_eq!(hover_docs(REQUEST, env_with(&[]), &Vec::new(), 0, 6), None);
}

#[test]
fn a_variable_missing_from_some_namespaces_is_warned_of() {
    let env = Environment::new(
        ".vars.rd.json".to_string(),
        Some(vec![
            ("default".to_string(), vec![("tok".to_string(), "a".to_string())]),
            ("prod".to_string(), vec![]),
            ("dev".to_string(), vec![]),
        ]),
    );
    let warnings = env_var_warnings("let x = env(\"tok\")\nlet y = env(\"other\")\n", &env);
    assert_eq!(warnings.len(), 2);
    assert_eq!(warnings[0].message, "variable 'tok' missing from some namespaces: prod, dev");
    assert_eq!(warnings[0].span.start.line, 0);
    assert_eq!(warnings[0].span.start.col, 12);
    assert_eq!(warnings[1].message, "variable 'other' missing from some namespaces: default, prod, dev");
    assert_eq!(warnings[1].span.start.line, 1);
}

#[test]
fn a_variable_in_every_namespace_is_not_warned_of() {
    let env = env_with(&[("tok", "secret")]);
    assert!(env_var_warnings(REQUEST, &env).is_empty());
}
