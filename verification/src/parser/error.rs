//! The errors of the parser.
use vstd::prelude::*;
use vstd::string::*;

use crate::error_meta::{context_is, has_line, ContextualError, ErrorKind};
use crate::lexer::{kind_name, Token, TokenKind};
use crate::parser::ast::{span_of, token_fits, token_span, Program};

verus! {

/// A token copied out of the source text.
#[derive(Debug, PartialEq)]
pub struct TokenOwned {
    pub kind: TokenKind,
    pub text: String,
}

impl TokenOwned {
    pub fn from_token(token: &Token) -> (r: TokenOwned)
        ensures
            r.kind == token.kind,
            r.text@ == token.text@,
    {
        Self { text: token.text.to_owned(), kind: token.kind }
    }
}

/// How a token is named in messages: its kind, and for urls, comments and
/// illegal tokens also its text.
pub open spec fn token_owned_text(t: TokenOwned) -> Seq<char> {
    match t.kind {
        TokenKind::Url | TokenKind::Linecomment | TokenKind::IllegalToken => kind_name(t.kind) + "<"@
            + t.text@ + ">"@,
        _ => kind_name(t.kind),
    }
}

impl ErrorKind for TokenOwned {
    open spec fn spec_describe(&self) -> Seq<char> {
        token_owned_text(*self)
    }

    fn describe(&self) -> (r: String) {
        let mut s = String::from_str(self.kind.name());
        match self.kind {
            TokenKind::Url | TokenKind::Linecomment | TokenKind::IllegalToken => {
                s.append("<");
                s.append(self.text.as_str());
                s.append(">");
            },
            _ => {},
        }
        s
    }
}

/// What the parser expected and found instead.
#[derive(Debug, PartialEq)]
pub enum ParseError {
    ExpectedToken { found: TokenOwned, expected: TokenKind },
    ExpectedEitherOfTokens { found: TokenOwned, expected: Vec<TokenKind> },
}

/// The names of kinds, with `sep` between them.
pub open spec fn kind_list(kinds: Seq<TokenKind>, sep: Seq<char>) -> Seq<char>
    decreases kinds.len(),
{
    if kinds.len() == 0 {
        Seq::empty()
    } else if kinds.len() == 1 {
        kind_name(kinds[0])
    } else {
        kind_list(kinds.drop_last(), sep) + sep + kind_name(kinds.last())
    }
}

pub open spec fn parse_error_text(e: ParseError) -> Seq<char> {
    match e {
        ParseError::ExpectedToken { found, expected } => "expected "@ + kind_name(expected)
            + ", got "@ + token_owned_text(found),
        ParseError::ExpectedEitherOfTokens { found, expected } => "expected either one of "@
            + kind_list(expected@, ","@) + ", but got "@ + token_owned_text(found),
    }
}

impl ErrorKind for ParseError {
    open spec fn spec_describe(&self) -> Seq<char> {
        parse_error_text(*self)
    }

    fn describe(&self) -> (r: String) {
        match self {
            ParseError::ExpectedToken { expected, found } => {
                let mut s = String::from_str("expected ");
                s.append(expected.name());
                s.append(", got ");
                let f = found.describe();
                s.append(f.as_str());
                s
            },
            ParseError::ExpectedEitherOfTokens { found, expected } => {
                let mut s = String::from_str("expected either one of ");
                let mut i: usize = 0;
                while i < expected.len()
                    invariant
                        0 <= i <= expected@.len(),
                        s@ == "expected either one of "@ + kind_list(expected@.take(i as int), ","@),
                    decreases expected@.len() - i,
                {
                    proof {
                        assert(expected@.take(i + 1).drop_last() =~= expected@.take(i as int));
                    }
                    if i > 0 {
                        s.append(",");
                    }
                    s.append(expected[i].name());
                    i = i + 1;
                }
                proof {
                    assert(expected@.take(expected@.len() as int) =~= expected@);
                }
                s.append(", but got ");
                let f = found.describe();
                s.append(f.as_str());
                s
            },
        }
    }
}

/// All the errors of a parse, with what could be parsed of the program.
#[derive(Debug)]
pub struct ParserErrors<'source> {
    pub errors: Vec<ContextualError<ParseError>>,
    pub incomplete_rogram: Program<'source>,
}

impl<'source> ParserErrors<'source> {
    pub fn new(
        errors: Vec<ContextualError<ParseError>>,
        incomplete_rogram: Program<'source>,
    ) -> (r: ParserErrors<'source>)
        ensures
            r.errors == errors,
            r.incomplete_rogram == incomplete_rogram,
    {
        Self { errors, incomplete_rogram }
    }
}

/// The kinds of `s`, each once, in the order they first occur.
pub open spec fn dedup(s: Seq<TokenKind>) -> Seq<TokenKind>
    decreases s.len(),
{
    if s.len() == 0 {
        Seq::empty()
    } else if dedup(s.drop_last()).contains(s.last()) {
        dedup(s.drop_last())
    } else {
        dedup(s.drop_last()).push(s.last())
    }
}

/// Makes parse errors about the tokens of one source text.
#[derive(Debug)]
pub struct ParseErrorConstructor<'i> {
    source_code: &'i str,
}

/// `e` is an error at `token` of `code` saying `inner`.
pub open spec fn error_at(e: ContextualError<ParseError>, code: &str, token: Token) -> bool {
    &&& e.span == token_span(token)
    &&& e.message is None
    &&& context_is(e.context, code, token.start.line as nat)
}

/// `f` names the token `t`.
pub open spec fn owns(f: TokenOwned, t: Token) -> bool {
    f.kind == t.kind && f.text@ == t.text@
}

impl<'i> ParseErrorConstructor<'i> {
    pub closed spec fn source(&self) -> &'i str {
        self.source_code
    }

    pub fn new(source: &'i str) -> (r: ParseErrorConstructor<'i>)
        ensures
            r.source() == source,
    {
        Self { source_code: source }
    }

    /// `token` is not the `expected` kind of token.
    pub fn expected_token(&self, token: &Token, expected: TokenKind) -> (r: ContextualError<ParseError>)
        requires
            has_line(self.source().spec_bytes(), token.start.line as nat),
            self.source().spec_bytes().len() <= usize::MAX,
            token_fits(*token),
        ensures
            error_at(r, self.source(), *token),
            r.inner_error matches ParseError::ExpectedToken { found, expected: e } && e == expected
                && owns(found, *token),
    {
        ContextualError::new(
            ParseError::ExpectedToken { found: TokenOwned::from_token(token), expected },
            span_of(token),
            self.source_code,
        )
    }

    /// `token` is none of the `expected_kinds`; each kind is listed once.
    pub fn expected_one_of_tokens(&self, token: &Token, expected_kinds: Vec<TokenKind>) -> (r:
        ContextualError<ParseError>)
        requires
            has_line(self.source().spec_bytes(), token.start.line as nat),
            self.source().spec_bytes().len() <= usize::MAX,
            token_fits(*token),
        ensures
            error_at(r, self.source(), *token),
            r.inner_error matches ParseError::ExpectedEitherOfTokens { found, expected } && expected@
                == dedup(expected_kinds@) && owns(found, *token),
    {
        let mut expected_deduped: Vec<TokenKind> = Vec::new();
        let mut i: usize = 0;
        while i < expected_kinds.len()
            invariant
                0 <= i <= expected_kinds@.len(),
                expected_deduped@ == dedup(expected_kinds@.take(i as int)),
            decreases expected_kinds@.len() - i,
        {
            let kind = expected_kinds[i];
            proof {
                assert(expected_kinds@.take(i + 1).drop_last() =~= expected_kinds@.take(i as int));
            }
            if !contains_kind(&expected_deduped, kind) {
                expected_deduped.push(kind);
            }
            i = i + 1;
        }
        proof {
            assert(expected_kinds@.take(expected_kinds@.len() as int) =~= expected_kinds@);
        }
        ContextualError::new(
            ParseError::ExpectedEitherOfTokens {
                found: TokenOwned::from_token(token),
                expected: expected_deduped,
            },
            span_of(token),
            self.source_code,
        )
    }
}

fn contains_kind(kinds: &Vec<TokenKind>, kind: TokenKind) -> (r: bool)
    ensures
        r == kinds@.contains(kind),
{
    let mut i: usize = 0;
    while i < kinds.len()
        invariant
            0 <= i <= kinds@.len(),
            forall|j: int| 0 <= j < i ==> kinds@[j] != kind,
        decreases kinds@.len() - i,
    {
        if kinds[i] == kind {
            return true;
        }
        i = i + 1;
    }
    false
}

/// The kinds an error lists are the kinds asked for, each once: every kind asked
/// for is listed, nothing else is, and no kind is listed twice.
pub proof fn deduped_kinds_are_the_asked_kinds_once(s: Seq<TokenKind>)
    ensures
        forall|k: TokenKind| dedup(s).contains(k) <==> s.contains(k),
        forall|i: int, j: int| 0 <= i < j < dedup(s).len() ==> dedup(s)[i] != dedup(s)[j],
    decreases s.len(),
{
    if s.len() > 0 {
        let init = s.drop_last();
        deduped_kinds_are_the_asked_kinds_once(init);
        let d = dedup(init);
        let l = s.last();
        assert forall|k: TokenKind| dedup(s).contains(k) implies s.contains(k) by {
            let i = choose|i: int| 0 <= i < dedup(s).len() && dedup(s)[i] == k;
            if i < d.len() {
                assert(d[i] == k);
                assert(d.contains(k));
                assert(init.contains(k));
                let j = choose|j: int| 0 <= j < init.len() && init[j] == k;
                assert(s[j] == k);
            } else {
                assert(k == l);
                assert(s[s.len() - 1] == k);
            }
        }
        assert forall|k: TokenKind| s.contains(k) implies dedup(s).contains(k) by {
            let i = choose|i: int| 0 <= i < s.len() && s[i] == k;
            if i == s.len() - 1 {
                if d.contains(l) {
                } else {
                    assert(dedup(s)[d.len() as int] == l);
                }
            } else {
                assert(init[i] == k);
                assert(init.contains(k));
                assert(d.contains(k));
                let j = choose|j: int| 0 <= j < d.len() && d[j] == k;
                assert(dedup(s)[j] == k);
            }
        }
    }
}

} // verus!
