use rested::simple_lexer::{at, Lexer, Token, TokenKind};

fn assert_lexes(input: &str, tokens: Vec<Token>) {
    let mut lexer = Lexer::new(input);
    for token in tokens {
        assert_eq!(lexer.next(), token);
    }
}

fn tok(kind: TokenKind, text: &str, line: usize, col: usize) -> Token<'_> {
    Token { kind, text, location: at(line, col) }
}

#[test]
fn lex_string_literals() {
    assert_lexes(r#""hello""#, vec![tok(TokenKind::StringLiteral, "hello", 0, 0)]);
    assert_lexes(r#""hello"#, vec![tok(TokenKind::UnfinishedStringLiteral, "hello", 0, 0)]);
    assert_lexes(
        r#"
"hello
"world
"#,
        vec![
            tok(TokenKind::UnfinishedStringLiteral, "hello", 1, 0),
            tok(TokenKind::UnfinishedStringLiteral, "world", 2, 0),
        ],
    );
    assert_lexes(
        r#" "" "" ``"#,
        vec![tok(TokenKind::StringLiteral, "", 0, 1), tok(TokenKind::StringLiteral, "", 0, 4), tok(TokenKind::StringLiteral, "", 0, 7)],
    );
    assert_lexes(
        r#" { "Bearer token" } "#,
        vec![tok(TokenKind::LBracket, "{", 0, 1), tok(TokenKind::StringLiteral, "Bearer token", 0, 3), tok(TokenKind::RBracket, "}", 0, 18)],
    );
    assert_lexes(
        r#"`
{
    stuff
}`

`
stuff"#,
        vec![
            tok(TokenKind::MultiLineStringLiteral, "\n{\n    stuff\n}", 0, 0),
            tok(TokenKind::UnfinishedMultiLineStringLiteral, "\nstuff", 5, 0),
        ],
    );
}

#[test]
fn lex_get_url() {
    assert_lexes(
        "get http://localhost",
        vec![tok(TokenKind::Get, "get", 0, 0), tok(TokenKind::Url, "http://localhost", 0, 4)],
    );
}

#[test]
fn lex_get_url_with_header() {
    assert_lexes(
        "get http://localhost { header \"Authorization\" \"Bearer token\" }",
        vec![
            tok(TokenKind::Get, "get", 0, 0),
            tok(TokenKind::Url, "http://localhost", 0, 4),
            tok(TokenKind::LBracket, "{", 0, 21),
            tok(TokenKind::Header, "header", 0, 23),
            tok(TokenKind::StringLiteral, "Authorization", 0, 30),
            tok(TokenKind::StringLiteral, "Bearer token", 0, 46),
            tok(TokenKind::RBracket, "}", 0, 61),
        ],
    );
}

#[test]
fn lex_get_url_over_many_lines() {
    assert_lexes(
        "get\nhttp://localhost",
        vec![tok(TokenKind::Get, "get", 0, 0), tok(TokenKind::Url, "http://localhost", 1, 0)],
    );
    assert_lexes(
        r#"get 
    http://localhost 
{
}"#,
        vec![
            tok(TokenKind::Get, "get", 0, 0),
            tok(TokenKind::Url, "http://localhost", 1, 4),
            tok(TokenKind::LBracket, "{", 2, 0),
            tok(TokenKind::RBracket, "}", 3, 0),
        ],
    );
}

#[test]
fn lex_get_url_with_header_and_body() {
    assert_lexes(
        r#"
post http://localhost { 
    header "Authorization" "Bearer token" 
    body "{neet: 1337}" 
}"#,
        vec![
            tok(TokenKind::Post, "post", 1, 0),
            tok(TokenKind::Url, "http://localhost", 1, 5),
            tok(TokenKind::LBracket, "{", 1, 22),
            tok(TokenKind::Header, "header", 2, 4),
            tok(TokenKind::StringLiteral, "Authorization", 2, 11),
            tok(TokenKind::StringLiteral, "Bearer token", 2, 27),
            tok(TokenKind::Body, "body", 3, 4),
            tok(TokenKind::StringLiteral, "{neet: 1337}", 3, 9),
            tok(TokenKind::RBracket, "}", 4, 0),
        ],
    );
}

#[test]
fn lex_call_expression() {
    assert_lexes(
        r#"env() env("stuff")"#,
        vec![
            tok(TokenKind::Ident, "env", 0, 0),
            tok(TokenKind::LParen, "(", 0, 3),
            tok(TokenKind::RParen, ")", 0, 4),
            tok(TokenKind::Ident, "env", 0, 6),
            tok(TokenKind::LParen, "(", 0, 9),
            tok(TokenKind::StringLiteral, "stuff", 0, 10),
            tok(TokenKind::RParen, ")", 0, 17),
        ],
    );
}

#[test]
fn lex_template_literals() {
    assert_lexes(
        r#"`stuff${"interpolated"}(things${env("dead_night")}` `dohickeys`"#,
        vec![
            tok(TokenKind::MultiLineStringLiteral, "stuff", 0, 0),
            tok(TokenKind::DollarSignLBracket, "${", 0, 6),
            tok(TokenKind::StringLiteral, "interpolated", 0, 8),
            tok(TokenKind::MultiLineStringLiteral, "(things", 0, 22),
            tok(TokenKind::DollarSignLBracket, "${", 0, 30),
            tok(TokenKind::Ident, "env", 0, 32),
            tok(TokenKind::LParen, "(", 0, 35),
            tok(TokenKind::StringLiteral, "dead_night", 0, 36),
            tok(TokenKind::RParen, ")", 0, 48),
            tok(TokenKind::MultiLineStringLiteral, "", 0, 49),
            tok(TokenKind::MultiLineStringLiteral, "dohickeys", 0, 52),
        ],
    );
    assert_lexes(
        r#"`a${"temp"}` }}"#,
        vec![
            tok(TokenKind::MultiLineStringLiteral, "a", 0, 0),
            tok(TokenKind::DollarSignLBracket, "${", 0, 2),
            tok(TokenKind::StringLiteral, "temp", 0, 4),
            tok(TokenKind::MultiLineStringLiteral, "", 0, 10),
            tok(TokenKind::RBracket, "}", 0, 13),
        ],
    );
}

#[test]
fn simple_lexer_keeps_giving_the_end_token() {
    let mut lexer = Lexer::new("set");
    assert_eq!(lexer.next(), tok(TokenKind::SetKeyword, "set", 0, 0));
    assert_eq!(lexer.next().kind, TokenKind::End);
    assert_eq!(lexer.next().kind, TokenKind::End);
}

#[test]
fn simple_lexer_reads_comments_paths_and_assignments() {
    assert_lexes(
        "#!/bin/rstd\n// note\nlet x = /api @log",
        vec![
            tok(TokenKind::Shebang, "#!/bin/rstd", 0, 0),
            tok(TokenKind::Linecomment, "// note", 1, 0),
            tok(TokenKind::Let, "let", 2, 0),
            tok(TokenKind::Ident, "x", 2, 4),
            tok(TokenKind::Assign, "=", 2, 6),
            tok(TokenKind::Pathname, "/api", 2, 8),
            tok(TokenKind::AttributePrefix, "@", 2, 13),
            tok(TokenKind::Ident, "log", 2, 14),
            tok(TokenKind::End, "", 2, 17),
        ],
    );
    assert_lexes("1", vec![tok(TokenKind::IllegalToken, "1", 0, 0)]);
}

#[test]
fn simple_lexer_reads_an_interpolation_right_at_the_opening() {
    assert_lexes(
        "`${a}${b}`",
        vec![
            tok(TokenKind::MultiLineStringLiteral, "", 0, 0),
            tok(TokenKind::DollarSignLBracket, "${", 0, 1),
            tok(TokenKind::Ident, "a", 0, 3),
            tok(TokenKind::MultiLineStringLiteral, "", 0, 4),
            tok(TokenKind::DollarSignLBracket, "${", 0, 5),
            tok(TokenKind::Ident, "b", 0, 7),
            tok(TokenKind::MultiLineStringLiteral, "", 0, 8),
        ],
    );
}
