use rested::lexer::locations::{GetSpan, Position, Span};
use rested::lexer::{Lexer, Token, TokenKind};

fn tok(kind: TokenKind, text: &str, value: usize, line: usize, col: usize) -> Token<'_> {
    Token { kind, text, start: Position { value, line, col } }
}

fn assert_lexes(input: &str, expected: Vec<Token>) {
    let tokens = Lexer::new(input).into_tokens();
    assert_eq!(tokens, expected);
}

fn ml(head: bool, tail: bool) -> TokenKind {
    TokenKind::MultiLineStringLiteral { head, tail }
}

#[test]
fn lex_put_patch_delete() {
    assert_lexes(
        r#"
put /api {}
patch /api {}
delete /api {}
"#,
        vec![
            tok(TokenKind::Put, "put", 1, 1, 0),
            tok(TokenKind::Pathname, "/api", 5, 1, 4),
            tok(TokenKind::LBracket, "{", 10, 1, 9),
            tok(TokenKind::RBracket, "}", 11, 1, 10),
            tok(TokenKind::Patch, "patch", 13, 2, 0),
            tok(TokenKind::Pathname, "/api", 19, 2, 6),
            tok(TokenKind::LBracket, "{", 24, 2, 11),
            tok(TokenKind::RBracket, "}", 25, 2, 12),
            tok(TokenKind::Delete, "delete", 27, 3, 0),
            tok(TokenKind::Pathname, "/api", 34, 3, 7),
            tok(TokenKind::LBracket, "{", 39, 3, 12),
            tok(TokenKind::RBracket, "}", 40, 3, 13),
        ],
    );
}

#[test]
fn lexer_lex_string_literals() {
    assert_lexes(r#""hello""#, vec![tok(TokenKind::StringLiteral, "\"hello\"", 0, 0, 0)]);
    assert_lexes(r#""hello"#, vec![tok(TokenKind::UnfinishedStringLiteral, "\"hello", 0, 0, 0)]);
    assert_lexes(
        r#"
"hello
"world
"#,
        vec![
            tok(TokenKind::UnfinishedStringLiteral, "\n\"hello", 1, 1, 0),
            tok(TokenKind::UnfinishedStringLiteral, "\n\"hello\n\"world", 8, 2, 0),
        ],
    );
    assert_lexes(
        r#" "" "" ``"#,
        vec![
            tok(TokenKind::StringLiteral, "", 1, 0, 1),
            tok(TokenKind::StringLiteral, "", 4, 0, 4),
            tok(TokenKind::StringLiteral, "", 7, 0, 7),
        ],
    );
    assert_lexes(
        r#" { "Bearer token" } "#,
        vec![
            tok(TokenKind::LBracket, "{", 1, 0, 1),
            tok(TokenKind::StringLiteral, "\"Bearer token\"", 3, 0, 3),
            tok(TokenKind::RBracket, "}", 18, 0, 18),
        ],
    );
    assert_lexes(
        r#"`
{
    stuff
}`

`
stuff"#,
        vec![
            tok(ml(true, true), "`\n{\n    stuff\n}`", 0, 0, 0),
            tok(TokenKind::UnfinishedMultiLineStringLiteral, "`\nstuff", 18, 5, 0),
        ],
    );
}

#[test]
fn lexer_lex_get_url() {
    assert_lexes(
        "get http://localhost",
        vec![tok(TokenKind::Get, "get", 0, 0, 0), tok(TokenKind::Url, "http://localhost", 4, 0, 4)],
    );
}

#[test]
fn lexer_lex_get_url_with_header() {
    assert_lexes(
        "get http://localhost { header \"Authorization\" \"Bearer token\" }",
        vec![
            tok(TokenKind::Get, "get", 0, 0, 0),
            tok(TokenKind::Url, "http://localhost", 4, 0, 4),
            tok(TokenKind::LBracket, "{", 21, 0, 21),
            tok(TokenKind::Header, "header", 23, 0, 23),
            tok(TokenKind::StringLiteral, "\"Authorization\"", 30, 0, 30),
            tok(TokenKind::StringLiteral, "\"Bearer token\"", 46, 0, 46),
            tok(TokenKind::RBracket, "}", 61, 0, 61),
        ],
    );
}

#[test]
fn lexer_lex_get_url_over_many_lines() {
    assert_lexes(
        "get\nhttp://localhost",
        vec![tok(TokenKind::Get, "get", 0, 0, 0), tok(TokenKind::Url, "http://localhost", 4, 1, 0)],
    );
    assert_lexes(
        r#"get 
    http://localhost 
{
}"#,
        vec![
            tok(TokenKind::Get, "get", 0, 0, 0),
            tok(TokenKind::Url, "http://localhost", 9, 1, 4),
            tok(TokenKind::LBracket, "{", 27, 2, 0),
            tok(TokenKind::RBracket, "}", 29, 3, 0),
        ],
    );
}

#[test]
fn lexer_lex_get_url_with_header_and_body() {
    assert_lexes(
        r#"
post http://localhost { 
    header "Authorization" "Bearer token" 
    body "{neet: 1337}" 
}"#,
        vec![
            tok(TokenKind::Post, "post", 1, 1, 0),
            tok(TokenKind::Url, "http://localhost", 6, 1, 5),
            tok(TokenKind::LBracket, "{", 23, 1, 22),
            tok(TokenKind::Header, "header", 30, 2, 4),
            tok(TokenKind::StringLiteral, "\"Authorization\"", 37, 2, 11),
            tok(TokenKind::StringLiteral, "\"Bearer token\"", 53, 2, 27),
            tok(TokenKind::Body, "body", 73, 3, 4),
            tok(TokenKind::StringLiteral, "\"{neet: 1337}\"", 78, 3, 9),
            tok(TokenKind::RBracket, "}", 94, 4, 0),
        ],
    );
}

#[test]
fn lexer_lex_call_expression() {
    assert_lexes(
        r#"env() env("stuff")"#,
        vec![
            tok(TokenKind::Ident, "env", 0, 0, 0),
            tok(TokenKind::LParen, "(", 3, 0, 3),
            tok(TokenKind::RParen, ")", 4, 0, 4),
            tok(TokenKind::Ident, "env", 6, 0, 6),
            tok(TokenKind::LParen, "(", 9, 0, 9),
            tok(TokenKind::StringLiteral, "\"stuff\"", 10, 0, 10),
            tok(TokenKind::RParen, ")", 17, 0, 17),
        ],
    );
}

#[test]
fn lexer_lex_template_literals() {
    assert_lexes(
        r#"`stuff${"interpolated"}(things${env("dead_night")}` `dohickeys`"#,
        vec![
            tok(ml(true, false), "`stuff", 0, 0, 0),
            tok(TokenKind::DollarSignLBracket, "${", 6, 0, 6),
            tok(TokenKind::StringLiteral, "\"interpolated\"", 8, 0, 8),
            tok(ml(false, false), "(things", 23, 0, 23),
            tok(TokenKind::DollarSignLBracket, "${", 30, 0, 30),
            tok(TokenKind::Ident, "env", 32, 0, 32),
            tok(TokenKind::LParen, "(", 35, 0, 35),
            tok(TokenKind::StringLiteral, "\"dead_night\"", 36, 0, 36),
            tok(TokenKind::RParen, ")", 48, 0, 48),
            tok(ml(false, true), "`", 50, 0, 50),
            tok(ml(true, true), "`dohickeys`", 52, 0, 52),
        ],
    );
    assert_lexes(
        r#"`a${"temp"}` }}"#,
        vec![
            tok(ml(true, false), "`a", 0, 0, 0),
            tok(TokenKind::DollarSignLBracket, "${", 2, 0, 2),
            tok(TokenKind::StringLiteral, "\"temp\"", 4, 0, 4),
            tok(ml(false, true), "`", 11, 0, 11),
            tok(TokenKind::RBracket, "}", 13, 0, 13),
            tok(TokenKind::RBracket, "}", 14, 0, 14),
        ],
    );
}

#[test]
fn it_lexes_tokens_with_correct_span() {
    let tokens = Lexer::new("get /members").into_tokens();
    assert_eq!(tokens[0].span(), Span::new(Position::new(0, 0, 0), Position::new(0, 2, 2)));
    assert_eq!(tokens[1].span(), Span::new(Position::new(0, 4, 4), Position::new(0, 11, 11)));
}

#[test]
fn lexer_reads_numbers_booleans_and_punctuation() {
    assert_lexes(
        "12.5 7. true null [a, b]: =@",
        vec![
            tok(TokenKind::Number, "12.5", 0, 0, 0),
            tok(TokenKind::Number, "7", 5, 0, 5),
            tok(TokenKind::Boolean, "true", 8, 0, 8),
            tok(TokenKind::Null, "null", 13, 0, 13),
            tok(TokenKind::LSquare, "[", 18, 0, 18),
            tok(TokenKind::Ident, "a", 19, 0, 19),
            tok(TokenKind::Comma, ",", 20, 0, 20),
            tok(TokenKind::Ident, "b", 22, 0, 22),
            tok(TokenKind::RSquare, "]", 23, 0, 23),
            tok(TokenKind::Colon, ":", 24, 0, 24),
            tok(TokenKind::Assign, "=", 26, 0, 26),
            tok(TokenKind::AttributePrefix, "@", 27, 0, 27),
        ],
    );
}

#[test]
fn lexer_takes_an_unknown_wide_character_whole() {
    assert_lexes("é ~", vec![tok(TokenKind::IllegalToken, "é", 0, 0, 0), tok(TokenKind::IllegalToken, "~", 3, 0, 3)]);
}

#[test]
fn lexer_keeps_giving_the_end_token() {
    let mut lexer = Lexer::new("set x\n");
    assert_eq!(lexer.next(), Some(tok(TokenKind::SetKeyword, "set", 0, 0, 0)));
    assert_eq!(lexer.next(), Some(tok(TokenKind::Ident, "x", 4, 0, 4)));
    assert_eq!(lexer.next(), None);
    assert_eq!(lexer.next_token().kind, TokenKind::End);
    assert_eq!(lexer.next_token().kind, TokenKind::End);
}

#[test]
fn adjacent_interpolations_are_each_read() {
    let mut l = Lexer::new("`${a}${b}`");
    let kinds: Vec<(TokenKind, &str)> = (0..8).map(|_| {
        let t = l.next_token();
        (t.kind, t.text)
    }).collect();
    assert_eq!(
        kinds,
        vec![
            (ml(true, false), "`"),
            (TokenKind::DollarSignLBracket, "${"),
            (TokenKind::Ident, "a"),
            (ml(false, false), ""),
            (TokenKind::DollarSignLBracket, "${"),
            (TokenKind::Ident, "b"),
            (ml(false, true), "`"),
            (TokenKind::End, ""),
        ]
    );
}

#[test]
fn an_empty_input_gives_the_end_token_at_the_start() {
    let t = Lexer::new("").next_token();
    assert_eq!(t, tok(TokenKind::End, "", 0, 0, 0));
}

#[test]
fn the_first_token_of_a_text_starts_at_its_start() {
    let t = Lexer::new("get /api").next_token();
    assert_eq!(t.start, Position { value: 0, line: 0, col: 0 });
}

#[test]
fn the_end_location_is_the_end_position_without_the_offset() {
    let mut lexer = Lexer::new("get\n  /api");
    lexer.next_token();
    let t = lexer.next_token();
    let end = t.end_position();
    let location = t.end_location();
    assert_eq!((location.line, location.col), (end.line, end.col));
    assert_eq!((location.line, location.col), (1, 6));
}

#[test]
fn a_token_span_is_as_wide_as_its_text() {
    let t = Lexer::new("  hello world").next_token();
    assert_eq!(rested::locations::GetSpan::span(&t).width(), 5);
}
