//! The parser of the request language: it reads the tokens of a source text and
//! builds the items of a program, collecting an error for each item it cannot read.
pub mod ast;
pub mod error;
pub mod stringify;

use vstd::prelude::*;
use vstd::string::*;
use vstd::utf8::*;

use crate::error_meta::{context_is, has_line, lemma_cursor_line_exists, ContextualError};
use crate::lexer::locations::Position;
use crate::lexer::{
    end_token_is_final, lemma_step_progress, next_step, token_is, tokens_from, LexStep, Lexer, Token,
    TokenKind,
};
use crate::locations::{GetSpan, Location, Span};
use crate::text::{bytes_lt, bytes_lt_is_a_strict_total_order};
use self::ast::{
    endpoint_span, expr_in, has_field, has_key, insert_field, item_in, keys_sorted, span_of, statement_in,
    string_value, token_fits,
    token_span, Block, Endpoint, Expression, Identifier, Item,
    Literal, Program, RequestMethod, Statement, StringLiteral,
};
use self::error::{dedup, error_at, owns, ParseError, ParseErrorConstructor, ParserErrors};

verus! {

pub type ParseResult<'source, T> = Result<T, ContextualError<ParseError>>;

/// Two kinds are the same kind of token; template string pieces are one kind,
/// whatever their ends.
pub open spec fn same_kind(a: TokenKind, b: TokenKind) -> bool {
    match (a, b) {
        (TokenKind::MultiLineStringLiteral { .. }, TokenKind::MultiLineStringLiteral { .. }) => true,
        _ => a == b,
    }
}

pub fn is_kind(a: TokenKind, b: TokenKind) -> (r: bool)
    ensures
        r == same_kind(a, b),
{
    match (a, b) {
        (TokenKind::MultiLineStringLiteral { .. }, TokenKind::MultiLineStringLiteral { .. }) => true,
        _ => a == b,
    }
}

/// `k` is one of `kinds`.
pub open spec fn kind_in(k: TokenKind, kinds: Seq<TokenKind>) -> bool {
    exists|i: int| 0 <= i < kinds.len() && same_kind(k, kinds[i])
}

/// Checks on the kind of a token.
pub trait TokenCheck {
    spec fn spec_kind(&self) -> TokenKind;

    fn is_one_of(&self, kinds: &[TokenKind]) -> (r: bool)
        ensures
            r == kind_in(self.spec_kind(), kinds@),
    ;

    fn is(&self, kind: TokenKind) -> (r: bool)
        ensures
            r == same_kind(self.spec_kind(), kind),
    ;
}

impl<'source> TokenCheck for Token<'source> {
    open spec fn spec_kind(&self) -> TokenKind {
        self.kind
    }

    fn is_one_of(&self, kinds: &[TokenKind]) -> (r: bool) {
        let mut i: usize = 0;
        while i < kinds.len()
            invariant
                0 <= i <= kinds@.len(),
                forall|j: int| 0 <= j < i ==> !same_kind(self.kind, kinds@[j]),
            decreases kinds@.len() - i,
        {
            if is_kind(self.kind, kinds[i]) {
                return true;
            }
            i = i + 1;
        }
        false
    }

    fn is(&self, kind: TokenKind) -> (r: bool) {
        is_kind(self.kind, kind)
    }
}

/// A token read off `src` can be shown in an error and its span computed.
pub open spec fn tok_ok(src: Seq<u8>, t: Token) -> bool {
    &&& token_fits(t)
    &&& t.start.col <= t.start.value <= src.len() + 1
    &&& t.text.spec_bytes().len() <= src.len()
    &&& src.len() > 0 ==> has_line(src, t.start.line as nat)
    &&& t.kind != TokenKind::End ==> src.len() > 0
}

// ---------------------------------------------------------------------------
// The token stream as the parser sees it
// ---------------------------------------------------------------------------

/// The steps of lexing a whole text, up to and without the end token.
pub open spec fn steps(src: Seq<u8>) -> Seq<LexStep> {
    tokens_from(src, 0, 0)
}

/// The kinds of the tokens of a text, up to and without the end token.
pub open spec fn step_kinds(src: Seq<u8>) -> Seq<TokenKind> {
    steps(src).map_values(|s: LexStep| s.kind)
}

/// The step that gives the end token, once lexing from offset `v` has gone
/// through all the other tokens.
pub open spec fn end_from(bytes: Seq<u8>, v: int, depth: u8) -> LexStep
    decreases bytes.len() + 2 - v,
{
    let st = next_step(bytes, v, depth);
    if st.kind == TokenKind::End || v < 0 || v > bytes.len() + 1 || st.next <= v || st.next
        > bytes.len() + 1 {
        st
    } else {
        end_from(bytes, st.next, st.depth)
    }
}

/// The step that gives the token at index `i` of a text; past the last token,
/// the end token.
pub open spec fn step_of(src: Seq<u8>, i: int) -> LexStep {
    if 0 <= i < steps(src).len() {
        steps(src)[i]
    } else {
        end_from(src, 0, 0)
    }
}

/// `t` is the token at index `i` of the text `src`.
pub open spec fn is_token_at(src: Seq<u8>, i: int, t: Token) -> bool {
    token_is(t, src, step_of(src, i))
}

/// The kind of the token at index `i` of a stream whose kinds before the end
/// token are `ks`: the end token from there on.
pub open spec fn kat(ks: Seq<TokenKind>, i: int) -> TokenKind {
    if 0 <= i < ks.len() {
        ks[i]
    } else {
        TokenKind::End
    }
}

/// How many tokens there are from index `i` on, the end token counted once.
pub open spec fn dist(ks: Seq<TokenKind>, i: int) -> nat {
    if i <= ks.len() {
        (ks.len() + 1 - i) as nat
    } else {
        0
    }
}

/// No token before the end is an end token.
pub proof fn lemma_steps_not_end(bytes: Seq<u8>, v: int, depth: u8)
    ensures
        forall|i: int|
            0 <= i < tokens_from(bytes, v, depth).len() ==> (#[trigger] tokens_from(
                bytes,
                v,
                depth,
            )[i]).kind != TokenKind::End,
    decreases bytes.len() + 2 - v,
{
    let st = next_step(bytes, v, depth);
    if !(st.kind == TokenKind::End || v < 0 || v > bytes.len() + 1 || st.next <= v || st.next
        > bytes.len() + 1) {
        lemma_steps_not_end(bytes, st.next, st.depth);
        let rest = tokens_from(bytes, st.next, st.depth);
        assert forall|i: int| 0 <= i < tokens_from(bytes, v, depth).len() implies (
        #[trigger] tokens_from(bytes, v, depth)[i]).kind != TokenKind::End by {
            if i > 0 {
                assert(tokens_from(bytes, v, depth)[i] == rest[i - 1]);
            }
        }
    }
}

// ---------------------------------------------------------------------------
// The grammar, over the kinds of the tokens
// ---------------------------------------------------------------------------

/// What the parser expected where it stopped: one kind or one of several, at
/// the token with index `at`, with a message that tells more, if any.
pub struct Expected {
    pub at: int,
    pub single: bool,
    pub kinds: Seq<TokenKind>,
    pub message: Option<Seq<char>>,
}

/// How reading a construct goes: it ends at the token with the given index, or
/// the parser stops at a token it did not expect.
pub enum Parsed {
    Done(int),
    Failed(Expected),
}

/// The parser expected one of `kinds` at index `at`; each kind is listed once.
pub open spec fn one_of(at: int, kinds: Seq<TokenKind>) -> Parsed {
    Parsed::Failed(Expected { at, single: false, kinds: dedup(kinds), message: None })
}

/// The parser expected a token of kind `kind` at index `at`.
pub open spec fn expected(at: int, kind: TokenKind) -> Parsed {
    Parsed::Failed(Expected { at, single: true, kinds: seq![kind], message: None })
}

/// A template piece, whatever its ends, as named in expectations.
pub open spec fn template_piece() -> TokenKind {
    TokenKind::MultiLineStringLiteral { head: false, tail: false }
}

/// The kinds an expression may start with, as the parser lists them.
pub open spec fn expr_kinds() -> Seq<TokenKind> {
    seq![
        TokenKind::Ident,
        TokenKind::Ident,
        TokenKind::StringLiteral,
        TokenKind::Boolean,
        TokenKind::Number,
        template_piece(),
        TokenKind::LBracket,
        TokenKind::LSquare,
        TokenKind::Null,
    ]
}

pub open spec fn endpoint_kinds() -> Seq<TokenKind> {
    seq![TokenKind::Url, TokenKind::Pathname]
}

pub open spec fn header_value_kinds() -> Seq<TokenKind> {
    seq![TokenKind::StringLiteral, TokenKind::Ident, template_piece()]
}

pub open spec fn set_value_kinds() -> Seq<TokenKind> {
    seq![TokenKind::Ident, TokenKind::StringLiteral, template_piece()]
}

pub open spec fn key_kinds() -> Seq<TokenKind> {
    seq![TokenKind::Ident, TokenKind::StringLiteral]
}

pub open spec fn template_kinds() -> Seq<TokenKind> {
    seq![template_piece(), TokenKind::End, template_piece(), template_piece()]
}

pub open spec fn statement_kinds() -> Seq<TokenKind> {
    seq![TokenKind::Header, TokenKind::Body, TokenKind::Linecomment, TokenKind::Shebang]
}

pub open spec fn after_attribute_kinds() -> Seq<TokenKind> {
    seq![
        TokenKind::Get,
        TokenKind::Post,
        TokenKind::Put,
        TokenKind::Patch,
        TokenKind::Delete,
        TokenKind::AttributePrefix,
        TokenKind::Linecomment,
    ]
}

pub open spec fn statement_message() -> Seq<char> {
    "may only declare headers or a body statement here"@
}

pub open spec fn after_attribute_message() -> Seq<char> {
    "after attributes should come requests or more attributes"@
}

/// Reading goes on from index `j`, past index `i`, which is a token before the end.
pub open spec fn advances(ks: Seq<TokenKind>, i: int, j: int) -> bool {
    i < j && i < ks.len()
}

pub open spec fn is_bracket(k: TokenKind) -> bool {
    k == TokenKind::LBracket || k == TokenKind::LSquare
}

pub open spec fn expr_rank(ks: Seq<TokenKind>, i: int) -> nat {
    if is_bracket(kat(ks, i)) {
        3
    } else {
        1
    }
}

/// An expression that starts at index `i`.
pub open spec fn expr_spec(ks: Seq<TokenKind>, i: int) -> Parsed
    decreases dist(ks, i), expr_rank(ks, i),
{
    match kat(ks, i) {
        TokenKind::Ident => if kat(ks, i + 1) == TokenKind::LParen {
            args_spec(ks, i + 2)
        } else {
            Parsed::Done(i)
        },
        TokenKind::StringLiteral | TokenKind::Boolean | TokenKind::Number | TokenKind::Null => {
            Parsed::Done(i)
        },
        TokenKind::MultiLineStringLiteral { .. } => template_spec(ks, i),
        TokenKind::LBracket | TokenKind::LSquare => json_spec(ks, i),
        _ => one_of(i, expr_kinds()),
    }
}

/// The arguments of a call, from index `i` up to the closing parenthesis.
pub open spec fn args_spec(ks: Seq<TokenKind>, i: int) -> Parsed
    decreases dist(ks, i), 4nat,
{
    if kat(ks, i) == TokenKind::RParen {
        Parsed::Done(i)
    } else {
        match expr_spec(ks, i) {
            Parsed::Done(e) => if advances(ks, i, e + 1) {
                args_spec(ks, e + 1)
            } else {
                Parsed::Done(e)
            },
            f => f,
        }
    }
}

/// The pieces of a template string from index `i` on, with the expressions
/// between them.
pub open spec fn template_spec(ks: Seq<TokenKind>, i: int) -> Parsed
    decreases dist(ks, i), 0nat,
{
    match kat(ks, i) {
        TokenKind::MultiLineStringLiteral { .. } => if kat(ks, i + 1)
            == TokenKind::DollarSignLBracket {
            match expr_spec(ks, i + 2) {
                Parsed::Done(e) => if advances(ks, i, e + 1) {
                    template_spec(ks, e + 1)
                } else {
                    Parsed::Done(e)
                },
                f => f,
            }
        } else {
            Parsed::Done(i)
        },
        TokenKind::End => Parsed::Done(i),
        _ => one_of(i, template_kinds()),
    }
}

/// A json-like value that starts at index `i`: an object, an array, or an
/// expression.
pub open spec fn json_spec(ks: Seq<TokenKind>, i: int) -> Parsed
    decreases dist(ks, i), 2nat,
{
    match kat(ks, i) {
        TokenKind::LBracket => if kat(ks, i + 1) == TokenKind::RBracket {
            Parsed::Done(i + 1)
        } else {
            object_spec(ks, i)
        },
        TokenKind::LSquare => if kat(ks, i + 1) == TokenKind::RSquare {
            Parsed::Done(i + 1)
        } else {
            array_spec(ks, i)
        },
        _ => expr_spec(ks, i),
    }
}

/// The fields of an object, after the token at index `i`.
pub open spec fn object_spec(ks: Seq<TokenKind>, i: int) -> Parsed
    decreases dist(ks, i), 1nat,
{
    if kat(ks, i + 1) == TokenKind::RBracket {
        Parsed::Done(i + 1)
    } else if kat(ks, i + 1) == TokenKind::Linecomment {
        object_spec(ks, i + 1)
    } else {
        match property_spec(ks, i) {
            Parsed::Done(e) => if advances(ks, i, e) {
                if kat(ks, e + 1) == TokenKind::RBracket {
                    object_spec(ks, e)
                } else if kat(ks, e + 1) == TokenKind::Comma {
                    object_spec(ks, e + 1)
                } else {
                    expected(e + 1, TokenKind::Comma)
                }
            } else {
                Parsed::Done(e)
            },
            f => f,
        }
    }
}

/// A field of an object, `key: value`, after the token at index `i`.
pub open spec fn property_spec(ks: Seq<TokenKind>, i: int) -> Parsed
    decreases dist(ks, i), 0nat,
{
    match kat(ks, i + 1) {
        TokenKind::Ident | TokenKind::StringLiteral => if kat(ks, i + 2) == TokenKind::Colon {
            json_spec(ks, i + 3)
        } else {
            expected(i + 2, TokenKind::Colon)
        },
        _ => one_of(i + 1, key_kinds()),
    }
}

/// The elements of an array, after the token at index `i`.
pub open spec fn array_spec(ks: Seq<TokenKind>, i: int) -> Parsed
    decreases dist(ks, i), 1nat,
{
    if kat(ks, i + 1) == TokenKind::RSquare {
        Parsed::Done(i + 1)
    } else if kat(ks, i + 1) == TokenKind::Linecomment {
        array_spec(ks, i + 1)
    } else if kat(ks, i + 1) == TokenKind::End {
        one_of(i + 1, expr_kinds())
    } else {
        match json_spec(ks, i + 1) {
            Parsed::Done(e) => if advances(ks, i, e) {
                if kat(ks, e + 1) == TokenKind::RSquare {
                    array_spec(ks, e)
                } else if kat(ks, e + 1) == TokenKind::Comma {
                    array_spec(ks, e + 1)
                } else {
                    expected(e + 1, TokenKind::Comma)
                }
            } else {
                Parsed::Done(e)
            },
            f => f,
        }
    }
}

/// A header statement at index `i`: a name and a value.
pub open spec fn header_spec(ks: Seq<TokenKind>, i: int) -> Parsed {
    if kat(ks, i + 1) != TokenKind::StringLiteral {
        expected(i + 1, TokenKind::StringLiteral)
    } else if !kind_in(kat(ks, i + 2), header_value_kinds()) {
        one_of(i + 2, header_value_kinds())
    } else {
        expr_spec(ks, i + 2)
    }
}

/// The statements of a block from index `i` up to the closing brace or the end.
pub open spec fn statements_spec(ks: Seq<TokenKind>, i: int) -> Parsed
    decreases dist(ks, i),
{
    match kat(ks, i) {
        TokenKind::RBracket | TokenKind::End => Parsed::Done(i),
        TokenKind::Header | TokenKind::Body => {
            let s = if kat(ks, i) == TokenKind::Header {
                header_spec(ks, i)
            } else {
                expr_spec(ks, i + 1)
            };
            match s {
                Parsed::Done(e) => if advances(ks, i, e + 1) {
                    statements_spec(ks, e + 1)
                } else {
                    Parsed::Done(e)
                },
                f => f,
            }
        },
        TokenKind::Linecomment | TokenKind::Shebang => statements_spec(ks, i + 1),
        _ => Parsed::Failed(
            Expected {
                at: i,
                single: false,
                kinds: dedup(statement_kinds()),
                message: Some(statement_message()),
            },
        ),
    }
}

/// The indexes of the tokens that start the statements of a block, from index
/// `i` on, as `statements_spec` reads them.
pub open spec fn statement_starts(ks: Seq<TokenKind>, i: int) -> Seq<int>
    decreases dist(ks, i),
{
    match kat(ks, i) {
        TokenKind::Header | TokenKind::Body => {
            let s = if kat(ks, i) == TokenKind::Header {
                header_spec(ks, i)
            } else {
                expr_spec(ks, i + 1)
            };
            match s {
                Parsed::Done(e) => if advances(ks, i, e + 1) {
                    seq![i] + statement_starts(ks, e + 1)
                } else {
                    seq![i]
                },
                _ => Seq::empty(),
            }
        },
        TokenKind::Linecomment | TokenKind::Shebang => if advances(ks, i, i + 1) {
            seq![i] + statement_starts(ks, i + 1)
        } else {
            seq![i]
        },
        _ => Seq::empty(),
    }
}

/// The block that may follow the token at index `i`.
pub open spec fn block_spec(ks: Seq<TokenKind>, i: int) -> Parsed {
    if kat(ks, i + 1) != TokenKind::LBracket {
        Parsed::Done(i)
    } else {
        statements_spec(ks, i + 2)
    }
}

/// A request whose method is at index `i`.
pub open spec fn request_spec(ks: Seq<TokenKind>, i: int) -> Parsed {
    if !kind_in(kat(ks, i + 1), endpoint_kinds()) {
        one_of(i + 1, endpoint_kinds())
    } else {
        block_spec(ks, i + 1)
    }
}

/// A `set` statement at index `i`.
pub open spec fn set_spec(ks: Seq<TokenKind>, i: int) -> Parsed {
    if kat(ks, i + 1) != TokenKind::Ident {
        expected(i + 1, TokenKind::Ident)
    } else if !kind_in(kat(ks, i + 2), set_value_kinds()) {
        one_of(i + 2, set_value_kinds())
    } else {
        expr_spec(ks, i + 2)
    }
}

/// A `let` statement at index `i`: any token names the binding.
pub open spec fn let_spec(ks: Seq<TokenKind>, i: int) -> Parsed {
    if kat(ks, i + 2) != TokenKind::Assign {
        expected(i + 2, TokenKind::Assign)
    } else {
        expr_spec(ks, i + 3)
    }
}

/// An attribute at index `i`, with its parameters if a parenthesis follows its name.
pub open spec fn attribute_spec(ks: Seq<TokenKind>, i: int) -> Parsed {
    if kat(ks, i + 1) != TokenKind::Ident {
        expected(i + 1, TokenKind::Ident)
    } else if kat(ks, i + 2) == TokenKind::LParen {
        args_spec(ks, i + 3)
    } else {
        Parsed::Done(i + 1)
    }
}

/// A top-level item at index `i`.
pub open spec fn item_spec(ks: Seq<TokenKind>, i: int) -> Parsed {
    match kat(ks, i) {
        TokenKind::Get | TokenKind::Post | TokenKind::Put | TokenKind::Patch | TokenKind::Delete => {
            request_spec(ks, i)
        },
        TokenKind::Linecomment | TokenKind::Shebang => Parsed::Done(i),
        TokenKind::SetKeyword => set_spec(ks, i),
        TokenKind::AttributePrefix => attribute_spec(ks, i),
        TokenKind::Let => let_spec(ks, i),
        _ => expr_spec(ks, i),
    }
}

/// Kinds that start a top-level item, and the end.
pub open spec fn is_top_level(k: TokenKind) -> bool {
    match k {
        TokenKind::Get | TokenKind::Post | TokenKind::Put | TokenKind::Patch | TokenKind::Delete
        | TokenKind::SetKeyword | TokenKind::AttributePrefix | TokenKind::Let | TokenKind::End => true,
        _ => false,
    }
}

/// Where the parser stops skipping after an error at index `i`: on the last token
/// before the next top-level one.
pub open spec fn skip_spec(ks: Seq<TokenKind>, i: int) -> int
    decreases dist(ks, i),
{
    if is_top_level(kat(ks, i + 1)) {
        i
    } else {
        skip_spec(ks, i + 1)
    }
}

/// The top-level items from index `i` on: the indexes where the items that were
/// read start, and the errors met, in order.
pub open spec fn program_spec(ks: Seq<TokenKind>, i: int) -> (Seq<int>, Seq<Expected>)
    decreases dist(ks, i),
{
    if kat(ks, i) == TokenKind::End {
        (Seq::empty(), Seq::empty())
    } else {
        match item_spec(ks, i) {
            Parsed::Done(e) => if !advances(ks, i, e + 1) {
                (Seq::empty(), Seq::empty())
            } else if kat(ks, i) == TokenKind::AttributePrefix && !kind_in(
                kat(ks, e + 1),
                after_attribute_kinds(),
            ) {
                let rest = program_spec(ks, e + 1);
                let x = Expected {
                    at: e + 1,
                    single: false,
                    kinds: dedup(after_attribute_kinds()),
                    message: Some(after_attribute_message()),
                };
                (rest.0, seq![x] + rest.1)
            } else {
                let rest = program_spec(ks, e + 1);
                (seq![i] + rest.0, rest.1)
            },
            Parsed::Failed(x) => {
                let s = skip_spec(ks, x.at);
                if advances(ks, i, s + 1) {
                    let rest = program_spec(ks, s + 1);
                    (rest.0, seq![x] + rest.1)
                } else {
                    (Seq::empty(), seq![x])
                }
            },
        }
    }
}

/// `e` reports what `x` says was expected, at the token `t`.
pub open spec fn reports(e: ContextualError<ParseError>, x: Expected, code: &str, t: Token) -> bool {
    &&& e.span == token_span(t)
    &&& context_is(e.context, code, t.start.line as nat)
    &&& match x.message {
        None => e.message is None,
        Some(m) => (e.message matches Some(s) && s@ == m),
    }
    &&& if x.single {
        (e.inner_error matches ParseError::ExpectedToken { found, expected } && x.kinds == seq![
            expected,
        ] && owns(found, t))
    } else {
        (e.inner_error matches ParseError::ExpectedEitherOfTokens { found, expected } && expected@
            == x.kinds && owns(found, t))
    }
}

/// The location where a token starts.
pub open spec fn start_of(t: Token) -> Location {
    Location { line: t.start.line, col: t.start.col }
}

fn start_location(t: &Token) -> (r: Location)
    ensures
        r == start_of(*t),
{
    Location { line: t.start.line, col: t.start.col }
}

/// What an expression read at the token `t`, followed by a token of kind `next`,
/// is made of: a single token gives its text and span; otherwise the kind of `t`
/// tells which sort of expression it is.
pub open spec fn expression_read(e: Expression, t: Token, next: TokenKind) -> bool {
    match t.kind {
        TokenKind::Ident => if next == TokenKind::LParen {
            (e matches Expression::Call { identifier, .. } && identifier.name == t.text
                && identifier.span == token_span(t))
        } else {
            e == Expression::Identifier(Identifier { name: t.text, span: token_span(t) })
        },
        TokenKind::StringLiteral => (e matches Expression::String(s) && s.raw == t.text
            && s.value.spec_bytes() == string_value(t.text.spec_bytes()) && s.span == token_span(t)),
        TokenKind::Boolean => e == Expression::Bool(Literal { value: t.text, span: token_span(t) }),
        TokenKind::Number => e == Expression::Number(Literal { value: t.text, span: token_span(t) }),
        TokenKind::Null => e == Expression::Null(token_span(t)),
        TokenKind::MultiLineStringLiteral { .. } => e is String || e is TemplateSringLiteral,
        TokenKind::LBracket => e is EmptyObject || (e matches Expression::Object((_, fields))
            && keys_sorted(fields@)),
        TokenKind::LSquare => e is EmptyArray || e is Array,
        _ => false,
    }
}

/// The sort of item that starts with a token of kind `k`.
pub open spec fn item_kind_is(item: Item, k: TokenKind) -> bool {
    match k {
        TokenKind::Get => item matches Item::Request { method: RequestMethod::GET, .. },
        TokenKind::Post => item matches Item::Request { method: RequestMethod::POST, .. },
        TokenKind::Put => item matches Item::Request { method: RequestMethod::PUT, .. },
        TokenKind::Patch => item matches Item::Request { method: RequestMethod::PATCH, .. },
        TokenKind::Delete => item matches Item::Request { method: RequestMethod::DELETE, .. },
        TokenKind::Linecomment | TokenKind::Shebang => item is LineComment,
        TokenKind::SetKeyword => item is SetConstant,
        TokenKind::AttributePrefix => item is Attribute,
        TokenKind::Let => item is Let,
        _ => item is Expr,
    }
}

/// The text of the token at index `i` of the tokens of `src`.
pub open spec fn text_at(src: Seq<u8>, i: int) -> Seq<u8> {
    src.subrange(step_of(src, i).lo, step_of(src, i).hi)
}

/// The expression `e` was read at the token at index `i` of `src`.
pub open spec fn expression_at(e: Expression, src: Seq<u8>, i: int) -> bool {
    exists|t: Token| #[trigger] is_token_at(src, i, t) && expression_read(e, t, kat(step_kinds(src), i + 1))
}

/// The indexes of the tokens that start the arguments of a call, from index `i`
/// on, as `args_spec` reads them.
pub open spec fn arg_starts(ks: Seq<TokenKind>, i: int) -> Seq<int>
    decreases dist(ks, i),
{
    if kat(ks, i) == TokenKind::RParen {
        Seq::empty()
    } else {
        match expr_spec(ks, i) {
            Parsed::Done(e) => if advances(ks, i, e + 1) {
                seq![i] + arg_starts(ks, e + 1)
            } else {
                seq![i]
            },
            _ => Seq::empty(),
        }
    }
}

/// The indexes of the tokens that start the elements of an array, after the
/// token at index `i`, as `array_spec` reads them.
pub open spec fn element_starts(ks: Seq<TokenKind>, i: int) -> Seq<int>
    decreases dist(ks, i),
{
    if kat(ks, i + 1) == TokenKind::RSquare || kat(ks, i + 1) == TokenKind::End {
        Seq::empty()
    } else if kat(ks, i + 1) == TokenKind::Linecomment {
        element_starts(ks, i + 1)
    } else {
        match json_spec(ks, i + 1) {
            Parsed::Done(e) => if advances(ks, i, e) {
                if kat(ks, e + 1) == TokenKind::RSquare {
                    seq![i + 1] + element_starts(ks, e)
                } else if kat(ks, e + 1) == TokenKind::Comma {
                    seq![i + 1] + element_starts(ks, e + 1)
                } else {
                    seq![i + 1]
                }
            } else {
                seq![i + 1]
            },
            _ => Seq::empty(),
        }
    }
}

/// The indexes of the tokens that start the parts of a template string from
/// index `i` on, as `template_spec` reads them: each piece of text, then the
/// expression after its `${`.
pub open spec fn template_starts(ks: Seq<TokenKind>, i: int) -> Seq<int>
    decreases dist(ks, i),
{
    match kat(ks, i) {
        TokenKind::MultiLineStringLiteral { .. } => if kat(ks, i + 1)
            == TokenKind::DollarSignLBracket {
            match expr_spec(ks, i + 2) {
                Parsed::Done(e) => if advances(ks, i, e + 1) {
                    seq![i, i + 2] + template_starts(ks, e + 1)
                } else {
                    seq![i, i + 2]
                },
                _ => Seq::empty(),
            }
        } else {
            seq![i]
        },
        _ => Seq::empty(),
    }
}

/// The indexes of the key tokens of the properties of an object, after the
/// token at index `i`, as `object_spec` reads them; each value starts two
/// tokens after its key.
pub open spec fn property_starts(ks: Seq<TokenKind>, i: int) -> Seq<int>
    decreases dist(ks, i),
{
    if kat(ks, i + 1) == TokenKind::RBracket {
        Seq::empty()
    } else if kat(ks, i + 1) == TokenKind::Linecomment {
        property_starts(ks, i + 1)
    } else {
        match property_spec(ks, i) {
            Parsed::Done(e) => if advances(ks, i, e) {
                if kat(ks, e + 1) == TokenKind::RBracket {
                    seq![i + 1] + property_starts(ks, e)
                } else if kat(ks, e + 1) == TokenKind::Comma {
                    seq![i + 1] + property_starts(ks, e + 1)
                } else {
                    seq![i + 1]
                }
            } else {
                seq![i + 1]
            },
            _ => Seq::empty(),
        }
    }
}

/// After a property read from index `i` to index `e` and followed by a comma or
/// the closing brace, the properties from `i` on are this one and those read
/// from `next` on.
proof fn lemma_property_step(ks: Seq<TokenKind>, i: int, e: int, next: int)
    requires
        kat(ks, i + 1) != TokenKind::RBracket,
        kat(ks, i + 1) != TokenKind::Linecomment,
        property_spec(ks, i) == Parsed::Done(e),
        advances(ks, i, e),
        (kat(ks, e + 1) == TokenKind::RBracket && next == e) || (kat(ks, e + 1)
            == TokenKind::Comma && next == e + 1),
    ensures
        property_starts(ks, i) == seq![i + 1] + property_starts(ks, next),
        object_spec(ks, i) == object_spec(ks, next),
{
}

/// After an element read from index `i + 1` to index `e` and followed by a comma
/// or the closing bracket, the elements after `i` are this one and those after
/// `next`.
proof fn lemma_element_step(ks: Seq<TokenKind>, i: int, e: int, next: int)
    requires
        kat(ks, i + 1) != TokenKind::RSquare,
        kat(ks, i + 1) != TokenKind::Linecomment,
        kat(ks, i + 1) != TokenKind::End,
        json_spec(ks, i + 1) == Parsed::Done(e),
        advances(ks, i, e),
        (kat(ks, e + 1) == TokenKind::RSquare && next == e) || (kat(ks, e + 1)
            == TokenKind::Comma && next == e + 1),
    ensures
        element_starts(ks, i) == seq![i + 1] + element_starts(ks, next),
        array_spec(ks, i) == array_spec(ks, next),
{
}

/// The bytes of a key read from the token at index `q` of `src`: a string
/// without its quotes, or a name as it stands.
pub open spec fn key_at(src: Seq<u8>, q: int) -> Seq<u8> {
    if kat(step_kinds(src), q) == TokenKind::StringLiteral {
        string_value(text_at(src, q))
    } else {
        text_at(src, q)
    }
}

/// No property after the `j`-th of those whose keys stand at `starts` has the
/// same key.
pub open spec fn last_with_its_key(src: Seq<u8>, starts: Seq<int>, j: int) -> bool {
    forall|j2: int| j < j2 < starts.len() ==> key_at(src, #[trigger] starts[j2]) != key_at(src, starts[j])
}

/// The fields of an object read from the properties whose keys stand at the
/// indexes `starts` of `src`: each key is there, and each field holds the value
/// of the last property with its key.
pub open spec fn fields_from(fields: Seq<(&str, Expression)>, src: Seq<u8>, starts: Seq<int>) -> bool
    decreases fields,
{
    &&& forall|j: int| 0 <= j < starts.len() ==> has_key(fields, key_at(src, #[trigger] starts[j]))
    &&& forall|k: int|
        0 <= k < fields.len() ==> exists|j: int|
            0 <= j < starts.len() && last_with_its_key(src, starts, j) && key_at(
                src,
                #[trigger] starts[j],
            ) == (#[trigger] fields[k]).0.spec_bytes() && expr_from(fields[k].1, src, starts[j] + 2)
}

/// Setting the field of a new property keeps the fields in step with the
/// properties read so far.
proof fn lemma_fields_from_insert<'s>(
    before: Seq<(&'s str, Expression<'s>)>,
    after: Seq<(&'s str, Expression<'s>)>,
    src: Seq<u8>,
    starts: Seq<int>,
    q: int,
    key: &'s str,
    value: Expression<'s>,
)
    requires
        fields_from(before, src, starts),
        keys_sorted(after),
        has_field(after, key.spec_bytes(), value),
        forall|kb: Seq<u8>, v: Expression<'s>|
            kb != key.spec_bytes() ==> (has_field(after, kb, v) <==> has_field(before, kb, v)),
        key.spec_bytes() == key_at(src, q),
        expr_from(value, src, q + 2),
    ensures
        fields_from(after, src, starts.push(q)),
{
    reveal(fields_from);
    reveal(expr_from);
    let kb = key.spec_bytes();
    let sts = starts.push(q);
    assert forall|j: int| 0 <= j < sts.len() implies has_key(after, key_at(src, #[trigger] sts[j])) by {
        let kj = key_at(src, sts[j]);
        if kj == kb {
            let w = choose|w: int| 0 <= w < after.len() && (#[trigger] after[w]).0.spec_bytes() == kb && after[w].1 == value;
            assert(after[w].0.spec_bytes() == kj);
        } else {
            assert(j < starts.len());
            assert(sts[j] == starts[j]);
            assert(has_key(before, key_at(src, starts[j])));
            let w = choose|w: int| 0 <= w < before.len() && (#[trigger] before[w]).0.spec_bytes() == kj;
            assert(has_field(before, kj, before[w].1));
            assert(has_field(after, kj, before[w].1));
            let w2 = choose|w2: int| 0 <= w2 < after.len() && (#[trigger] after[w2]).0.spec_bytes() == kj && after[w2].1 == before[w].1;
            assert(after[w2].0.spec_bytes() == kj);
        }
    }
    assert forall|k: int| 0 <= k < after.len() implies exists|j: int|
        0 <= j < sts.len() && last_with_its_key(src, sts, j) && key_at(
            src,
            #[trigger] sts[j],
        ) == (#[trigger] after[k]).0.spec_bytes() && expr_from(after[k].1, src, sts[j] + 2) by {
        let fb = after[k].0.spec_bytes();
        if fb == kb {
            let w = choose|w: int| 0 <= w < after.len() && (#[trigger] after[w]).0.spec_bytes() == kb && after[w].1 == value;
            if w != k {
                bytes_lt_is_a_strict_total_order(fb, fb, fb);
                if w < k {
                    assert(bytes_lt(after[w].0.spec_bytes(), after[k].0.spec_bytes()));
                } else {
                    assert(bytes_lt(after[k].0.spec_bytes(), after[w].0.spec_bytes()));
                }
            }
            let j = starts.len() as int;
            assert(sts[j] == q);
            assert(last_with_its_key(src, sts, j));
        } else {
            assert(has_field(after, fb, after[k].1));
            assert(has_field(before, fb, after[k].1));
            let w = choose|w: int| 0 <= w < before.len() && (#[trigger] before[w]).0.spec_bytes() == fb && before[w].1 == after[k].1;
            assert(0 <= w < before.len());
            assert(exists|j: int|
                0 <= j < starts.len() && last_with_its_key(src, starts, j) && key_at(
                    src,
                    #[trigger] starts[j],
                ) == before[w].0.spec_bytes() && expr_from(before[w].1, src, starts[j] + 2));
            let j = choose|j: int|
                0 <= j < starts.len() && last_with_its_key(src, starts, j) && key_at(
                    src,
                    #[trigger] starts[j],
                ) == before[w].0.spec_bytes() && expr_from(before[w].1, src, starts[j] + 2);
            assert(sts[j] == starts[j]);
            assert forall|j2: int| j < j2 < sts.len() implies key_at(src, #[trigger] sts[j2]) != key_at(src, sts[j]) by {
                if j2 < starts.len() {
                    assert(sts[j2] == starts[j2]);
                } else {
                    assert(sts[j2] == q);
                }
            }
            assert(last_with_its_key(src, sts, j));
        }
    }
}

/// The index where reading ended as `p` says: the last token read, or the one
/// that was not expected.
pub open spec fn end_of(p: Parsed) -> int {
    match p {
        Parsed::Done(e) => e,
        Parsed::Failed(x) => x.at,
    }
}

/// `span` runs from the start of the token at index `i` of `src` to the end of
/// the token at index `j`.
pub open spec fn spans_tokens(span: Span, src: Seq<u8>, i: int, j: int) -> bool {
    exists|a: Token, b: Token|
        #[trigger] is_token_at(src, i, a) && #[trigger] is_token_at(src, j, b) && span.start
            == start_of(a) && span.end == token_span(b).end
}

/// `e` is the string of the token at index `i` of `src`: its text, the text
/// without its quotes, and its span.
pub open spec fn string_at(e: Expression, src: Seq<u8>, i: int) -> bool {
    exists|t: Token| #[trigger] is_token_at(src, i, t) && (e matches Expression::String(s) && s.raw
        == t.text && s.value.spec_bytes() == string_value(t.text.spec_bytes()) && s.span
        == token_span(t))
}

/// The expression `e` was read from the token at index `i` of `src`, and so
/// were its parts, each from the token it starts at.
#[verifier::opaque]
pub open spec fn expr_from(e: Expression, src: Seq<u8>, i: int) -> bool
    decreases e,
{
    &&& expression_at(e, src, i)
    &&& match e {
        Expression::Call { arguments, .. } => {
            let starts = arg_starts(step_kinds(src), i + 2);
            &&& arguments@.len() == starts.len()
            &&& forall|j: int|
                0 <= j < starts.len() ==> expr_from(#[trigger] arguments@[j], src, starts[j])
        },
        Expression::String(_) => string_at(e, src, i),
        Expression::TemplateSringLiteral { parts, span } => {
            let starts = template_starts(step_kinds(src), i);
            &&& spans_tokens(span, src, i, end_of(template_spec(step_kinds(src), i)))
            &&& parts@.len() == starts.len()
            &&& forall|j: int|
                0 <= j < starts.len() && j % 2 == 0 ==> string_at(#[trigger] parts@[j], src, starts[j])
            &&& forall|j: int|
                0 <= j < starts.len() && j % 2 == 1 ==> expr_from(#[trigger] parts@[j], src, starts[j])
        },
        Expression::EmptyObject(span) => spans_tokens(span, src, i, end_of(json_spec(step_kinds(src), i))),
        Expression::EmptyArray(span) => spans_tokens(span, src, i, end_of(json_spec(step_kinds(src), i))),
        Expression::Object((span, fields)) => spans_tokens(span, src, i, end_of(json_spec(step_kinds(src), i)))
            && fields_from(fields@, src, property_starts(step_kinds(src), i)),
        Expression::Array((span, items)) => {
            let starts = element_starts(step_kinds(src), i);
            &&& spans_tokens(span, src, i, end_of(json_spec(step_kinds(src), i)))
            &&& items@.len() == starts.len()
            &&& forall|j: int|
                0 <= j < starts.len() ==> expr_from(#[trigger] items@[j], src, starts[j])
        },
        _ => true,
    }
}

/// `l` is the text and the span of the token at index `i` of `src`.
pub open spec fn literal_at(l: Literal, src: Seq<u8>, i: int) -> bool {
    exists|t: Token| #[trigger] is_token_at(src, i, t) && l.value == t.text && l.span == token_span(t)
}

/// `id` is the name and the span of the token at index `i` of `src`.
pub open spec fn identifier_at(id: Identifier, src: Seq<u8>, i: int) -> bool {
    exists|t: Token| #[trigger] is_token_at(src, i, t) && id.name == t.text && id.span == token_span(t)
}

/// `loc` is where the token at index `i` of `src` starts.
pub open spec fn starts_at(loc: Location, src: Seq<u8>, i: int) -> bool {
    exists|t: Token| #[trigger] is_token_at(src, i, t) && loc == start_of(t)
}

/// The names, texts, places and values of an item read from the token at index
/// `i` of `src` are those of the tokens they stand on: a request and an
/// attribute start where that token does, the name of a `set`, a `let` or an
/// attribute and the url or path of a request are the text and span of the next
/// token, the statements of a request's block are read from the token after the
/// brace, a comment is its own token, the value of a `set` is read two
/// tokens on, that of a `let` three tokens on (after the `=`), the parameters of
/// an attribute after its parenthesis, and a lone expression at the item's own
/// token.
pub open spec fn item_text_is(item: Item, src: Seq<u8>, i: int) -> bool {
    match item {
        Item::SetConstant { identifier, value } => identifier_at(identifier, src, i + 1) && expr_from(
            value,
            src,
            i + 2,
        ),
        Item::Let { identifier, value } => identifier_at(identifier, src, i + 1) && expr_from(
            value,
            src,
            i + 3,
        ),
        Item::Attribute { identifier, parameters, location } => {
            let starts = if kat(step_kinds(src), i + 2) == TokenKind::LParen {
                arg_starts(step_kinds(src), i + 3)
            } else {
                Seq::empty()
            };
            &&& identifier_at(identifier, src, i + 1)
            &&& starts_at(location, src, i)
            &&& parameters@.len() == starts.len()
            &&& forall|j: int|
                0 <= j < starts.len() ==> expr_from(#[trigger] parameters@[j], src, starts[j])
        },
        Item::Request { endpoint, block, span, .. } => {
            &&& starts_at(span.start, src, i)
            &&& span.end == match block {
                Some(b) => b.span.end,
                None => endpoint_span(endpoint).end,
            }
            &&& match endpoint {
                Endpoint::Url(l) => literal_at(l, src, i + 1),
                Endpoint::Pathname(l) => literal_at(l, src, i + 1),
            }
            &&& block matches Some(b) ==> {
                &&& statements_text_are(b.statements@, src, statement_starts(step_kinds(src), i + 3))
                &&& starts_at(b.span.start, src, i + 2)
                &&& starts_at(b.span.end, src, end_of(block_spec(step_kinds(src), i + 1)))
            }
        },
        Item::LineComment(l) => literal_at(l, src, i),
        Item::Expr(e) => expr_from(e, src, i),
    }
}

/// The texts, places and values of a statement read from the token at index `i`
/// of `src` are those of the tokens they stand on: a header's name is the string
/// of the next token and its value is read two tokens on, a body starts at its
/// keyword and its value is read at the next token, and a comment is its own
/// token.
pub open spec fn statement_text_is(st: Statement, src: Seq<u8>, i: int) -> bool {
    match st {
        Statement::Header { name, value } => kat(step_kinds(src), i) == TokenKind::Header
            && string_at(Expression::String(name), src, i + 1) && expr_from(value, src, i + 2),
        Statement::Body { value, start } => kat(step_kinds(src), i) == TokenKind::Body
            && starts_at(start, src, i) && expr_from(value, src, i + 1),
        Statement::LineComment(l) => literal_at(l, src, i),
    }
}

/// The statements `sts` are those read from the tokens at the indexes `starts`.
pub open spec fn statements_text_are(sts: Seq<Statement>, src: Seq<u8>, starts: Seq<int>) -> bool {
    &&& sts.len() == starts.len()
    &&& forall|j: int| 0 <= j < sts.len() ==> statement_text_is(#[trigger] sts[j], src, starts[j])
}

/// `e` reports what `x` says was expected, at the token at index `x.at` of `src`.
pub open spec fn reported_at(e: ContextualError<ParseError>, x: Expected, src: Seq<u8>, code: &str) -> bool {
    exists|t: Token| is_token_at(src, x.at, t) && #[trigger] reports(e, x, code, t)
}

/// An item read from index `i` up to index `e` is kept, and reading goes on after it.
proof fn lemma_program_done(ks: Seq<TokenKind>, i: int, e: int)
    requires
        0 <= i <= e,
        kat(ks, i) != TokenKind::End,
        item_spec(ks, i) == Parsed::Done(e),
        !(kat(ks, i) == TokenKind::AttributePrefix && !kind_in(kat(ks, e + 1), after_attribute_kinds())),
    ensures
        program_spec(ks, i) == (seq![i] + program_spec(ks, e + 1).0, program_spec(ks, e + 1).1),
{
}

/// An attribute read from index `i` up to index `e` and not followed by a request
/// or another attribute is dropped with an error, and reading goes on after it.
proof fn lemma_program_attribute(ks: Seq<TokenKind>, i: int, e: int)
    requires
        0 <= i <= e,
        kat(ks, i) == TokenKind::AttributePrefix,
        item_spec(ks, i) == Parsed::Done(e),
        !kind_in(kat(ks, e + 1), after_attribute_kinds()),
    ensures
        program_spec(ks, i) == (
            program_spec(ks, e + 1).0,
            seq![
                Expected {
                    at: e + 1,
                    single: false,
                    kinds: dedup(after_attribute_kinds()),
                    message: Some(after_attribute_message()),
                },
            ] + program_spec(ks, e + 1).1,
        ),
{
}

/// An item that fails gives one error, and parsing goes on: the item is left out
/// and reading starts again at the next token that begins a top-level item.
pub proof fn parsing_goes_on_after_an_error(ks: Seq<TokenKind>, i: int, x: Expected)
    requires
        0 <= i <= x.at,
        kat(ks, i) != TokenKind::End,
        item_spec(ks, i) == Parsed::Failed(x),
    ensures
        skip_spec(ks, x.at) >= x.at,
        is_top_level(kat(ks, skip_spec(ks, x.at) + 1)),
        program_spec(ks, i) == (
            program_spec(ks, skip_spec(ks, x.at) + 1).0,
            seq![x] + program_spec(ks, skip_spec(ks, x.at) + 1).1,
        ),
{
    lemma_skip_forward(ks, x.at);
    lemma_skip_lands(ks, x.at);
}

/// Skipping stops before a token that starts a top-level item, or before the end.
proof fn lemma_skip_lands(ks: Seq<TokenKind>, i: int)
    ensures
        is_top_level(kat(ks, skip_spec(ks, i) + 1)),
    decreases dist(ks, i),
{
    if !is_top_level(kat(ks, i + 1)) {
        lemma_skip_lands(ks, i + 1);
    }
}

/// Skipping never goes back.
proof fn lemma_skip_forward(ks: Seq<TokenKind>, i: int)
    ensures
        skip_spec(ks, i) >= i,
    decreases dist(ks, i),
{
    if !is_top_level(kat(ks, i + 1)) {
        lemma_skip_forward(ks, i + 1);
    }
}

/// Reads the tokens of a source text into a program.
pub struct Parser<'i> {
    lexer: Lexer<'i>,
    token: Option<Token<'i>>,
    peeked: Option<Token<'i>>,
    pos: Ghost<int>,
}

impl<'i> Parser<'i> {
    /// The bytes of the source text.
    pub closed spec fn source(&self) -> Seq<u8> {
        self.lexer.source()
    }

    /// The source text.
    pub closed spec fn source_str(&self) -> &'i str {
        self.lexer.source_str()
    }

    /// The kinds of the tokens of the source text, without the end token.
    pub open spec fn kinds(&self) -> Seq<TokenKind> {
        step_kinds(self.source())
    }

    /// The index of the token the parser stands on; -1 before the first one.
    pub closed spec fn pos(&self) -> int {
        self.pos@
    }

    /// The token the parser stands on.
    pub closed spec fn current(&self) -> Option<Token<'i>> {
        self.token
    }

    /// How many tokens are left from the one the parser stands on.
    pub open spec fn dist(&self) -> nat {
        dist(self.kinds(), self.pos())
    }

    /// The index of the token the lexer gives next.
    closed spec fn lexer_index(&self) -> int {
        steps(self.lexer.source()).len() - tokens_from(
            self.lexer.source(),
            self.lexer.offset(),
            self.lexer.depth(),
        ).len()
    }

    pub closed spec fn wf(&self) -> bool {
        let src = self.lexer.source();
        let n = steps(src).len();
        let rest = tokens_from(src, self.lexer.offset(), self.lexer.depth());
        &&& self.lexer.wf()
        &&& 2 * src.len() + 8 <= usize::MAX
        &&& rest.len() <= n
        &&& rest =~= steps(src).subrange(self.lexer_index(), n as int)
        &&& end_from(src, self.lexer.offset(), self.lexer.depth()) == end_from(src, 0, 0)
        &&& self.pos@ >= -1
        &&& match self.token {
            None => self.pos@ == -1,
            Some(t) => self.pos@ >= 0 && is_token_at(src, self.pos@, t) && tok_ok(src, t),
        }
        &&& match self.peeked {
            None => self.lexer_index() == if self.pos@ + 1 <= n {
                self.pos@ + 1
            } else {
                n as int
            },
            Some(p) => self.lexer_index() == (if self.pos@ + 2 <= n {
                self.pos@ + 2
            } else {
                n as int
            }) && is_token_at(src, self.pos@ + 1, p) && tok_ok(src, p),
        }
    }

    /// The parser stands on a token of a text that is not empty.
    pub open spec fn started(&self) -> bool {
        &&& self.wf()
        &&& self.current() is Some
        &&& self.source().len() > 0
    }

    /// The token the parser stands on.
    pub open spec fn curr(&self) -> Token<'i> {
        self.current().unwrap()
    }

    /// The kind of the token at index `i`.
    pub open spec fn k(&self, i: int) -> TokenKind {
        kat(self.kinds(), i)
    }

    pub fn new(code: &'i str) -> (r: Parser<'i>)
        requires
            2 * code.spec_bytes().len() + 8 <= usize::MAX,
        ensures
            r.wf(),
            r.source() == code.spec_bytes(),
            r.source_str() == code,
            r.current() is None,
            r.pos() == -1,
    {
        let lexer = Lexer::new(code);
        proof {
            lexer.lemma_wf();
            assert(tokens_from(lexer.source(), 0, 0) =~= steps(lexer.source()).subrange(
                0,
                steps(lexer.source()).len() as int,
            ));
        }
        Self { peeked: None, lexer, token: None, pos: Ghost(-1) }
    }

    /// What the lexer gives next is the token at its index, and lexing on from
    /// there keeps the stream in step.
    proof fn lemma_lexer_step(&self)
        requires
            self.lexer.wf(),
            2 * self.lexer.source().len() + 8 <= usize::MAX,
            tokens_from(self.lexer.source(), self.lexer.offset(), self.lexer.depth()).len()
                <= steps(self.lexer.source()).len(),
            tokens_from(self.lexer.source(), self.lexer.offset(), self.lexer.depth())
                =~= steps(self.lexer.source()).subrange(
                self.lexer_index(),
                steps(self.lexer.source()).len() as int,
            ),
            end_from(self.lexer.source(), self.lexer.offset(), self.lexer.depth()) == end_from(
                self.lexer.source(),
                0,
                0,
            ),
        ensures
            ({
                let src = self.lexer.source();
                let n = steps(src).len();
                let j = self.lexer_index();
                let st = next_step(src, self.lexer.offset(), self.lexer.depth());
                let rest2 = tokens_from(src, st.next, st.depth);
                &&& st == step_of(src, j)
                &&& j < n ==> st.kind != TokenKind::End && rest2.len() + 1 == tokens_from(
                    src,
                    self.lexer.offset(),
                    self.lexer.depth(),
                ).len() && rest2 =~= steps(src).subrange(j + 1, n as int)
                &&& j == n ==> st.kind == TokenKind::End && rest2.len() == 0
                &&& end_from(src, st.next, st.depth) == end_from(src, 0, 0)
                &&& st.kind == kat(step_kinds(src), j)
            }),
    {
        let src = self.lexer.source();
        let n = steps(src).len();
        let v = self.lexer.offset();
        let d = self.lexer.depth();
        let j = self.lexer_index();
        let st = next_step(src, v, d);
        self.lexer.lemma_wf();
        crate::lexer::lemma_tokens_from_step(src, v, d);
        lemma_step_progress(src, v, d);
        lemma_steps_not_end(src, 0, 0);
        if j < n {
            assert(tokens_from(src, v, d).len() > 0);
            assert(st.kind != TokenKind::End);
            assert(tokens_from(src, v, d)[0] == st);
            assert(steps(src)[j] == tokens_from(src, v, d)[0]);
            assert(tokens_from(src, st.next, st.depth) =~= tokens_from(src, v, d).drop_first());
        } else {
            assert(st.kind == TokenKind::End);
            end_token_is_final(src, v, d);
            assert(st.depth == d);
            assert(tokens_from(src, st.next, st.depth).len() == 0);
        }
    }

    /// The kinds of the tokens the parser holds are those of their indexes.
    proof fn lemma_held_kinds(&self)
        requires
            self.wf(),
        ensures
            self.token matches Some(t) ==> t.kind == self.k(self.pos()),
            self.peeked matches Some(t) ==> t.kind == self.k(self.pos() + 1),
            self.peeked is None ==> next_step(
                self.lexer.source(),
                self.lexer.offset(),
                self.lexer.depth(),
            ).kind == self.k(self.pos() + 1),
            self.pos() >= steps(self.source()).len() ==> end_from(self.source(), 0, 0).kind
                == TokenKind::End,
            self.pos() + 1 >= steps(self.source()).len() && self.peeked is Some ==> end_from(
                self.source(),
                0,
                0,
            ).kind == TokenKind::End,
    {
        let src = self.lexer.source();
        let n = steps(src).len();
        self.lemma_lexer_step();
        let st = next_step(src, self.lexer.offset(), self.lexer.depth());
        if self.lexer_index() == n {
            assert(end_from(src, self.lexer.offset(), self.lexer.depth()) == st);
        }
    }

    proof fn lemma_lexed(&self, t: Token<'i>)
        requires
            self.lexer.wf(),
            token_is(t, self.lexer.source(), next_step(self.lexer.source(), self.lexer.offset(), self.lexer.depth())),
            t.start.value <= self.lexer.source().len() + 1,
            t.start.col <= t.start.value,
            t.text.spec_bytes().len() <= self.lexer.source().len(),
            2 * self.lexer.source().len() + 8 <= usize::MAX,
        ensures
            tok_ok(self.lexer.source(), t),
    {
        let b = self.lexer.source();
        self.lexer.lemma_wf();
        crate::lexer::lemma_tokens_from_step(b, self.lexer.offset(), self.lexer.depth());
        if b.len() > 0 {
            lemma_cursor_line_exists(b, t.start.value as nat);
        }
    }

    fn curr_token(&self) -> (r: Token<'i>)
        requires
            self.current() is Some,
        ensures
            r == self.curr(),
    {
        self.token.unwrap()
    }

    /// Moves on to the next token.
    fn next_token(&mut self) -> (r: Token<'i>)
        requires
            old(self).wf(),
        ensures
            final(self).wf(),
            final(self).source() == old(self).source(),
            final(self).source_str() == old(self).source_str(),
            final(self).current() == Some(r),
            final(self).pos() == old(self).pos() + 1,
            is_token_at(old(self).source(), old(self).pos() + 1, r),
            r.kind == old(self).k(old(self).pos() + 1),
    {
        let ghost src = self.lexer.source();
        proof {
            self.lemma_held_kinds();
        }
        let t = match self.peeked.take() {
            Some(t) => t,
            None => {
                let ghost before = *self;
                proof {
                    before.lemma_lexer_step();
                }
                let t = self.lexer.next_token();
                proof {
                    before.lemma_lexed(t);
                }
                t
            },
        };
        self.token = Some(t);
        self.pos = Ghost(self.pos@ + 1);
        t
    }

    /// The token after the current one, without moving on.
    fn peek_token(&mut self) -> (r: Token<'i>)
        requires
            old(self).wf(),
        ensures
            final(self).wf(),
            final(self).source() == old(self).source(),
            final(self).source_str() == old(self).source_str(),
            final(self).current() == old(self).current(),
            final(self).pos() == old(self).pos(),
            is_token_at(old(self).source(), old(self).pos() + 1, r),
            r.kind == old(self).k(old(self).pos() + 1),
    {
        proof {
            self.lemma_held_kinds();
        }
        match self.peeked {
            Some(t) => t,
            None => {
                let ghost before = *self;
                proof {
                    before.lemma_lexer_step();
                }
                let t = self.lexer.next_token();
                proof {
                    before.lemma_lexed(t);
                }
                self.peeked = Some(t);
                t
            },
        }
    }

    /// Reading ended as `o` says, with `r` what was read.
    pub open spec fn ends_as<T>(&self, r: Result<T, ContextualError<ParseError>>, o: Parsed) -> bool {
        match o {
            Parsed::Done(e) => r is Ok && self.pos() == e,
            Parsed::Failed(x) => r is Err && self.pos() == x.at && reports(
                r->Err_0,
                x,
                self.source_str(),
                self.curr(),
            ),
        }
    }

    /// The parser went on from `before` over the same text.
    pub open spec fn moved_on(&self, before: Parser<'i>) -> bool {
        &&& self.started()
        &&& self.source() == before.source()
        &&& self.source_str() == before.source_str()
        &&& self.pos() >= before.pos()
    }

    proof fn lemma_source(&self)
        requires
            self.wf(),
        ensures
            self.source() == self.source_str().spec_bytes(),
            self.source().len() + 4 <= usize::MAX,
    {
        self.lexer.lemma_wf();
    }

    fn error(&self) -> (r: ParseErrorConstructor<'i>)
        ensures
            r.source() == self.source_str(),
    {
        ParseErrorConstructor::new(self.lexer.input())
    }

    /// Moves on to the next token, which must be of the kind `expected_kind`.
    fn expect_peek(&mut self, expected_kind: TokenKind) -> (r: ParseResult<'i, Token<'i>>)
        requires
            old(self).started(),
        ensures
            final(self).moved_on(*old(self)),
            final(self).pos() == old(self).pos() + 1,
            final(self).ends_as(
                r,
                if same_kind(old(self).k(old(self).pos() + 1), expected_kind) {
                    Parsed::Done(old(self).pos() + 1)
                } else {
                    expected(old(self).pos() + 1, expected_kind)
                },
            ),
            r matches Ok(t) ==> t == final(self).curr(),
            r matches Ok(t) ==> is_token_at(old(self).source(), old(self).pos() + 1, t),
    {
        let p = self.peek_token();
        if p.is(expected_kind) {
            return Ok(self.next_token());
        }
        let con = self.error();
        let t = self.next_token();
        proof {
            self.lemma_source();
        }
        Err(con.expected_token(&t, expected_kind))
    }

    /// Checks that the next token is one of `expected_kinds`, without moving on;
    /// when it is not, moves on to it and reports it.
    fn expect_peek_one_of(&mut self, expected_kinds: Vec<TokenKind>) -> (r: ParseResult<'i, ()>)
        requires
            old(self).started(),
        ensures
            final(self).moved_on(*old(self)),
            final(self).ends_as(
                r,
                if kind_in(old(self).k(old(self).pos() + 1), expected_kinds@) {
                    Parsed::Done(old(self).pos())
                } else {
                    one_of(old(self).pos() + 1, expected_kinds@)
                },
            ),
            r is Ok ==> final(self).curr() == old(self).curr(),
    {
        let p = self.peek_token();
        if p.is_one_of(expected_kinds.as_slice()) {
            return Ok(());
        }
        let con = self.error();
        let t = self.next_token();
        proof {
            self.lemma_source();
        }
        Err(con.expected_one_of_tokens(&t, expected_kinds))
    }

    /// Moves on to the next token, which must be one of `expected_kinds`.
    fn next_expecting_one_of(&mut self, expected_kinds: Vec<TokenKind>) -> (r: ParseResult<
        'i,
        Token<'i>,
    >)
        requires
            old(self).started(),
        ensures
            final(self).moved_on(*old(self)),
            final(self).pos() == old(self).pos() + 1,
            final(self).ends_as(
                r,
                if kind_in(old(self).k(old(self).pos() + 1), expected_kinds@) {
                    Parsed::Done(old(self).pos() + 1)
                } else {
                    one_of(old(self).pos() + 1, expected_kinds@)
                },
            ),
            r matches Ok(t) ==> t == final(self).curr(),
            r matches Ok(t) ==> is_token_at(old(self).source(), old(self).pos() + 1, t),
    {
        match self.expect_peek_one_of(expected_kinds) {
            Ok(()) => Ok(self.next_token()),
            Err(e) => Err(e),
        }
    }

    /// The span from `start` to the end of the current token.
    fn span_from(&self, start: Location) -> (r: Span)
        requires
            self.started(),
        ensures
            r == (Span { start, end: token_span(self.curr()).end }),
    {
        start.to_end_of(self.curr_token().span())
    }

    /// An expression that starts at the current token.
    fn parse_expression(&mut self) -> (r: ParseResult<'i, Expression<'i>>)
        requires
            old(self).started(),
        ensures
            final(self).moved_on(*old(self)),
            final(self).ends_as(r, expr_spec(old(self).kinds(), old(self).pos())),
            r matches Ok(e) ==> expression_read(e, old(self).curr(), old(self).k(old(self).pos() + 1)),
            r matches Ok(e) ==> expr_in(e, old(self).source()),
            r matches Ok(e) ==> expr_from(e, old(self).source(), old(self).pos()),
        decreases old(self).dist(), expr_rank(old(self).kinds(), old(self).pos()),
    {
        proof {
            self.lemma_held_kinds();
            self.lemma_source();
        }
        let ghost p0 = self.pos();
        let ghost src = self.source();
        let t = self.curr_token();
        let r = match t.kind {
            TokenKind::Ident => {
                let p = self.peek_token();
                if p.kind == TokenKind::LParen {
                    self.parse_call_expression()
                } else {
                    Ok(Expression::Identifier(Identifier::from_token(&t)))
                }
            },
            TokenKind::StringLiteral => Ok(Expression::String(StringLiteral::from_token(&t))),
            TokenKind::Boolean => Ok(Expression::Bool(Literal::from_token(&t))),
            TokenKind::Number => Ok(Expression::Number(Literal::from_token(&t))),
            TokenKind::MultiLineStringLiteral { .. } => self.parse_multiline_string_literal(),
            TokenKind::LBracket | TokenKind::LSquare => self.parse_json_like(),
            TokenKind::Null => Ok(Expression::Null(span_of(&t))),
            _ => {
                let kinds = vec![
                    TokenKind::Ident,
                    TokenKind::Ident,
                    TokenKind::StringLiteral,
                    TokenKind::Boolean,
                    TokenKind::Number,
                    TokenKind::MultiLineStringLiteral { head: false, tail: false },
                    TokenKind::LBracket,
                    TokenKind::LSquare,
                    TokenKind::Null,
                ];
                proof {
                    assert(kinds@ =~= expr_kinds());
                }
                Err(self.error().expected_one_of_tokens(&t, kinds))
            },
        };
        proof {
            if r is Ok {
                assert(is_token_at(src, p0, t));
                assert(expr_from(r->Ok_0, src, p0)) by {
                    reveal(expr_from);
                }
            }
        }
        r
    }

    /// A call: a name, then arguments between parentheses.
    fn parse_call_expression(&mut self) -> (r: ParseResult<'i, Expression<'i>>)
        requires
            old(self).started(),
            old(self).k(old(self).pos()) == TokenKind::Ident,
            old(self).k(old(self).pos() + 1) == TokenKind::LParen,
        ensures
            final(self).moved_on(*old(self)),
            final(self).ends_as(r, args_spec(old(self).kinds(), old(self).pos() + 2)),
            r matches Ok(e) ==> (e matches Expression::Call { identifier, .. } && identifier.name
                == old(self).curr().text && identifier.span == token_span(old(self).curr())),
            r matches Ok(e) ==> expr_in(e, old(self).source()),
            r matches Ok(e) ==> (e matches Expression::Call { arguments, .. } && arguments@.len()
                == arg_starts(old(self).kinds(), old(self).pos() + 2).len() && forall|j: int|
                0 <= j < arguments@.len() ==> expr_from(
                    #[trigger] arguments@[j],
                    old(self).source(),
                    arg_starts(old(self).kinds(), old(self).pos() + 2)[j],
                )),
        decreases old(self).dist(), 0nat,
    {
        let ghost ks = self.kinds();
        let ghost p0 = self.pos();
        let ghost mut sts: Seq<int> = Seq::empty();
        let identifier = Identifier::from_token(&self.curr_token());
        self.next_token();
        self.next_token();
        let mut arguments: Vec<Expression<'i>> = Vec::new();
        while self.curr_token().kind != TokenKind::RParen
            invariant
                self.moved_on(*old(self)),
                self.kinds() == ks,
                ks == old(self).kinds(),
                p0 == old(self).pos(),
                0 <= p0 < ks.len(),
                self.pos() >= p0 + 2,
                args_spec(ks, p0 + 2) == args_spec(ks, self.pos()),
                has_line(old(self).source(), identifier.span.start.line as nat),
                forall|i: int|
                    0 <= i < arguments@.len() ==> expr_in(#[trigger] arguments@[i], old(self).source()),
                identifier.name == old(self).curr().text,
                identifier.span == token_span(old(self).curr()),
                arg_starts(ks, p0 + 2) == sts + arg_starts(ks, self.pos()),
                arguments@.len() == sts.len(),
                forall|j: int|
                    0 <= j < sts.len() ==> expr_from(#[trigger] arguments@[j], old(self).source(), sts[j]),
            decreases self.dist(),
        {
            proof {
                self.lemma_held_kinds();
            }
            let ghost here = self.pos();
            let exp = self.parse_expression()?;
            proof {
                let e = self.pos();
                assert(advances(ks, here, e + 1));
                assert(arg_starts(ks, here) == seq![here] + arg_starts(ks, e + 1));
                assert(sts.push(here) + arg_starts(ks, e + 1) =~= sts + (seq![here] + arg_starts(
                    ks,
                    e + 1,
                )));
                sts = sts.push(here);
            }
            arguments.push(exp);
            self.next_token();
        }
        proof {
            self.lemma_held_kinds();
            assert(sts + arg_starts(ks, self.pos()) =~= sts);
        }
        Ok(Expression::Call { identifier, arguments })
    }

    /// A template string: its pieces, with the expressions between them.
    #[verifier::rlimit(100)]
    #[verifier::spinoff_prover]
    fn parse_multiline_string_literal(&mut self) -> (r: ParseResult<'i, Expression<'i>>)
        requires
            old(self).started(),
            old(self).k(old(self).pos()) is MultiLineStringLiteral,
        ensures
            final(self).moved_on(*old(self)),
            final(self).ends_as(r, template_spec(old(self).kinds(), old(self).pos())),
            r matches Ok(e) ==> e is String || e is TemplateSringLiteral,
            r matches Ok(e) ==> expr_in(e, old(self).source()),
            r matches Ok(e) ==> expr_from(e, old(self).source(), old(self).pos()),
        decreases old(self).dist(), 0nat,
    {
        let ghost ks = self.kinds();
        let ghost p0 = self.pos();
        let ghost src = self.source();
        let ghost t0 = self.curr();
        let ghost mut sts: Seq<int> = Seq::empty();
        let mut parts: Vec<Expression<'i>> = Vec::new();
        proof {
            assert(is_token_at(src, p0, t0));
        }
        let start = start_location(&self.curr_token());
        let mut end = start;
        loop
            invariant_except_break
                self.moved_on(*old(self)),
                self.kinds() == ks,
                ks == old(self).kinds(),
                p0 == old(self).pos(),
                0 <= p0 < ks.len(),
                self.pos() >= p0,
                template_spec(ks, p0) == template_spec(ks, self.pos()),
                has_line(old(self).source(), start.line as nat),
                forall|i: int| 0 <= i < parts@.len() ==> expr_in(#[trigger] parts@[i], old(self).source()),
                src == old(self).source(),
                template_starts(ks, p0) == sts + template_starts(ks, self.pos()),
                parts@.len() == sts.len(),
                sts.len() == 0 ==> self.pos() == p0,
                sts.len() % 2 == 0,
                forall|j: int|
                    0 <= j < sts.len() && j % 2 == 0 ==> string_at(#[trigger] parts@[j], src, sts[j]),
                forall|j: int|
                    0 <= j < sts.len() && j % 2 == 1 ==> expr_from(#[trigger] parts@[j], src, sts[j]),
            ensures
                has_line(old(self).source(), start.line as nat),
                forall|i: int| 0 <= i < parts@.len() ==> expr_in(#[trigger] parts@[i], old(self).source()),
                self.moved_on(*old(self)),
                self.kinds() == ks,
                self.ends_as(Ok::<(), ContextualError<ParseError>>(()), template_spec(ks, p0)),
                end == token_span(self.curr()).end,
                template_starts(ks, p0) == sts,
                parts@.len() == sts.len(),
                forall|j: int|
                    0 <= j < sts.len() && j % 2 == 0 ==> string_at(#[trigger] parts@[j], src, sts[j]),
                forall|j: int|
                    0 <= j < sts.len() && j % 2 == 1 ==> expr_from(#[trigger] parts@[j], src, sts[j]),
            decreases self.dist(),
        {
            proof {
                self.lemma_held_kinds();
                self.lemma_source();
            }
            let t = self.curr_token();
            match t.kind {
                TokenKind::MultiLineStringLiteral { .. } => {
                    let ghost here = self.pos();
                    let p = self.peek_token();
                    if p.kind == TokenKind::DollarSignLBracket {
                        let piece = Expression::String(StringLiteral::from_token(&t));
                        proof {
                            assert(is_token_at(src, here, t));
                            assert(string_at(piece, src, here));
                        }
                        parts.push(piece);
                        self.next_token();
                        self.next_token();
                        let exp = self.parse_expression()?;
                        proof {
                            let e = self.pos();
                            assert(advances(ks, here, e + 1));
                            assert(template_starts(ks, here) == seq![here, here + 2] + template_starts(
                                ks,
                                e + 1,
                            ));
                            assert(sts.push(here).push(here + 2) + template_starts(ks, e + 1) =~= sts
                                + (seq![here, here + 2] + template_starts(ks, e + 1)));
                            sts = sts.push(here).push(here + 2);
                        }
                        parts.push(exp);
                    } else if parts.len() == 0 {
                        let piece = Expression::String(StringLiteral::from_token(&t));
                        proof {
                            assert(is_token_at(src, here, t));
                            assert(string_at(piece, src, here));
                            assert(expr_from(piece, src, p0)) by {
                                reveal(expr_from);
                            }
                        }
                        return Ok(piece);
                    } else {
                        end = t.end_location();
                        let piece = Expression::String(StringLiteral::from_token(&t));
                        proof {
                            assert(is_token_at(src, here, t));
                            assert(string_at(piece, src, here));
                            assert(template_starts(ks, here) == seq![here]);
                            assert(sts.push(here) =~= sts + seq![here]);
                            sts = sts.push(here);
                        }
                        parts.push(piece);
                        break ;
                    }
                },
                TokenKind::End => {
                    end = t.end_location();
                    proof {
                        assert(sts + template_starts(ks, self.pos()) =~= sts);
                    }
                    break ;
                },
                _ => {
                    let kinds = vec![
                        TokenKind::MultiLineStringLiteral { head: false, tail: false },
                        TokenKind::End,
                        TokenKind::MultiLineStringLiteral { head: false, tail: false },
                        TokenKind::MultiLineStringLiteral { head: false, tail: false },
                    ];
                    proof {
                        assert(kinds@ =~= template_kinds());
                    }
                    return Err(self.error().expected_one_of_tokens(&t, kinds));
                },
            }
            self.next_token();
        }
        let r = Expression::TemplateSringLiteral { span: Span::new(start, end), parts };
        proof {
            assert(is_token_at(src, p0, t0));
            assert(is_token_at(src, self.pos(), self.curr()));
            assert(expr_from(r, src, p0)) by {
                reveal(expr_from);
            }
        }
        Ok(r)
    }

    /// A json-like value: an object, an array, or any other expression.
    fn parse_json_like(&mut self) -> (r: ParseResult<'i, Expression<'i>>)
        requires
            old(self).started(),
        ensures
            final(self).moved_on(*old(self)),
            final(self).ends_as(r, json_spec(old(self).kinds(), old(self).pos())),
            r matches Ok(e) ==> expression_read(e, old(self).curr(), old(self).k(old(self).pos() + 1)),
            r matches Ok(e) ==> expr_in(e, old(self).source()),
            r matches Ok(e) ==> expr_from(e, old(self).source(), old(self).pos()),
        decreases old(self).dist(), 2nat,
    {
        proof {
            self.lemma_held_kinds();
        }
        let ghost p0 = self.pos();
        let ghost src = self.source();
        let start_token = self.curr_token();
        let start = start_location(&start_token);
        let r = match start_token.kind {
            TokenKind::LBracket => {
                let p = self.peek_token();
                if p.kind == TokenKind::RBracket {
                    self.next_token();
                    Ok(Expression::EmptyObject(self.span_from(start)))
                } else {
                    let fields = self.parse_object_fields()?;
                    let span = self.span_from(start);
                    Ok(Expression::Object((span, fields)))
                }
            },
            TokenKind::LSquare => {
                let p = self.peek_token();
                if p.kind == TokenKind::RSquare {
                    self.next_token();
                    Ok(Expression::EmptyArray(self.span_from(start)))
                } else {
                    let list = self.parse_array_items()?;
                    let span = self.span_from(start);
                    Ok(Expression::Array((span, list)))
                }
            },
            _ => self.parse_expression(),
        };
        proof {
            if r is Ok && is_bracket(start_token.kind) {
                assert(is_token_at(src, p0, start_token));
                assert(is_token_at(src, self.pos(), self.curr()));
                assert(expr_from(r->Ok_0, src, p0)) by {
                    reveal(expr_from);
                }
            }
        }
        r
    }

    /// The fields of an object after the current token, up to the closing brace.
    #[verifier::rlimit(100)]
    #[verifier::spinoff_prover]
    fn parse_object_fields(&mut self) -> (r: ParseResult<'i, Vec<(&'i str, Expression<'i>)>>)
        requires
            old(self).started(),
            0 <= old(self).pos() < old(self).kinds().len(),
        ensures
            final(self).moved_on(*old(self)),
            final(self).ends_as(r, object_spec(old(self).kinds(), old(self).pos())),
            r matches Ok(fields) ==> keys_sorted(fields@),
            r matches Ok(fields) ==> forall|i: int| 0 <= i < fields@.len() ==> expr_in(#[trigger] fields@[i].1, old(self).source()),
            r matches Ok(fields) ==> fields_from(
                fields@,
                old(self).source(),
                property_starts(old(self).kinds(), old(self).pos()),
            ),
        decreases old(self).dist(), 1nat,
    {
        let ghost ks = self.kinds();
        let ghost p0 = self.pos();
        let ghost src = self.source();
        let ghost mut sts: Seq<int> = Seq::empty();
        let mut fields: Vec<(&'i str, Expression<'i>)> = Vec::new();
        while self.peek_token().kind != TokenKind::RBracket
            invariant
                self.moved_on(*old(self)),
                self.kinds() == ks,
                ks == old(self).kinds(),
                p0 == old(self).pos(),
                0 <= p0 < ks.len(),
                self.pos() >= p0,
                object_spec(ks, p0) == object_spec(ks, self.pos()),
                keys_sorted(fields@),
                forall|i: int|
                    0 <= i < fields@.len() ==> expr_in(#[trigger] fields@[i].1, old(self).source()),
                src == old(self).source(),
                property_starts(ks, p0) == sts + property_starts(ks, self.pos()),
                fields_from(fields@, src, sts),
            decreases self.dist(),
        {
            let ghost here = self.pos();
            let q = self.peek_token();
            if q.is(TokenKind::Linecomment) {
                self.next_token();
                continue ;
            }
            let ghost before = fields@;
            let (key, value) = self.parse_object_property()?;
            let ghost e = self.pos();
            insert_field(&mut fields, key, value);
            proof {
                lemma_fields_from_insert(before, fields@, src, sts, here + 1, key, value);
            }
            let q = self.peek_token();
            if !q.is(TokenKind::RBracket) {
                self.expect_peek(TokenKind::Comma)?;
                proof {
                    lemma_property_step(ks, here, e, e + 1);
                }
            } else {
                proof {
                    lemma_property_step(ks, here, e, e);
                }
            }
            proof {
                assert(sts.push(here + 1) + property_starts(ks, self.pos()) =~= sts + (seq![here
                    + 1] + property_starts(ks, self.pos())));
                sts = sts.push(here + 1);
            }
        }
        proof {
            self.lemma_held_kinds();
            assert(sts + property_starts(ks, self.pos()) =~= sts);
        }
        self.next_token();
        Ok(fields)
    }

    /// The elements of an array after the current token, up to the closing bracket.
    #[verifier::rlimit(100)]
    #[verifier::spinoff_prover]
    fn parse_array_items(&mut self) -> (r: ParseResult<'i, Vec<Expression<'i>>>)
        requires
            old(self).started(),
            0 <= old(self).pos() < old(self).kinds().len(),
        ensures
            final(self).moved_on(*old(self)),
            final(self).ends_as(r, array_spec(old(self).kinds(), old(self).pos())),
            r matches Ok(items) ==> forall|i: int| 0 <= i < items@.len() ==> expr_in(#[trigger] items@[i], old(self).source()),
            r matches Ok(items) ==> items@.len() == element_starts(old(self).kinds(), old(self).pos()).len()
                && forall|j: int| 0 <= j < items@.len() ==> expr_from(
                    #[trigger] items@[j],
                    old(self).source(),
                    element_starts(old(self).kinds(), old(self).pos())[j],
                ),
        decreases old(self).dist(), 1nat,
    {
        let ghost ks = self.kinds();
        let ghost p0 = self.pos();
        let ghost mut sts: Seq<int> = Seq::empty();
        let mut list: Vec<Expression<'i>> = Vec::new();
        while self.peek_token().kind != TokenKind::RSquare
            invariant
                self.moved_on(*old(self)),
                self.kinds() == ks,
                ks == old(self).kinds(),
                p0 == old(self).pos(),
                0 <= p0 < ks.len(),
                self.pos() >= p0,
                array_spec(ks, p0) == array_spec(ks, self.pos()),
                forall|i: int| 0 <= i < list@.len() ==> expr_in(#[trigger] list@[i], old(self).source()),
                element_starts(ks, p0) == sts + element_starts(ks, self.pos()),
                list@.len() == sts.len(),
                forall|j: int|
                    0 <= j < sts.len() ==> expr_from(#[trigger] list@[j], old(self).source(), sts[j]),
            decreases self.dist(),
        {
            let ghost here = self.pos();
            let q = self.peek_token();
            if q.is(TokenKind::Linecomment) {
                self.next_token();
                continue ;
            }
            self.next_token();
            let value = self.parse_json_like()?;
            let ghost e = self.pos();
            list.push(value);
            let q = self.peek_token();
            if !q.is(TokenKind::RSquare) {
                self.expect_peek(TokenKind::Comma)?;
                proof {
                    lemma_element_step(ks, here, e, e + 1);
                }
            } else {
                proof {
                    lemma_element_step(ks, here, e, e);
                }
            }
            proof {
                assert(sts.push(here + 1) + element_starts(ks, self.pos()) =~= sts + (seq![here + 1]
                    + element_starts(ks, self.pos())));
                sts = sts.push(here + 1);
            }
        }
        proof {
            self.lemma_held_kinds();
            assert(sts + element_starts(ks, self.pos()) =~= sts);
        }
        self.next_token();
        Ok(list)
    }

    /// A field of an object: a name or a string, a colon, and a json-like value.
    fn parse_object_property(&mut self) -> (r: ParseResult<'i, (&'i str, Expression<'i>)>)
        requires
            old(self).started(),
        ensures
            final(self).moved_on(*old(self)),
            final(self).ends_as(r, property_spec(old(self).kinds(), old(self).pos())),
            r is Ok ==> final(self).pos() >= old(self).pos() + 3 && old(self).pos() + 1 < old(
                self,
            ).kinds().len(),
            r matches Ok(kv) ==> expr_in(kv.1, old(self).source()),
            r matches Ok(kv) ==> kv.0.spec_bytes() == key_at(old(self).source(), old(self).pos() + 1)
                && expr_from(kv.1, old(self).source(), old(self).pos() + 3),
        decreases old(self).dist(), 0nat,
    {
        let key_token = self.next_token();
        proof {
            self.lemma_held_kinds();
            self.lemma_source();
        }
        let key = match key_token.kind {
            TokenKind::Ident => key_token.text,
            TokenKind::StringLiteral => StringLiteral::from_token(&key_token).value,
            _ => {
                let kinds = vec![TokenKind::Ident, TokenKind::StringLiteral];
                proof {
                    assert(kinds@ =~= key_kinds());
                }
                return Err(self.error().expected_one_of_tokens(&key_token, kinds));
            },
        };
        self.expect_peek(TokenKind::Colon)?;
        self.next_token();
        let value = self.parse_json_like()?;
        Ok((key, value))
    }

    /// A header statement: `header`, a name, and a value.
    fn parse_header(&mut self) -> (r: ParseResult<'i, Statement<'i>>)
        requires
            old(self).started(),
            old(self).k(old(self).pos()) == TokenKind::Header,
        ensures
            final(self).moved_on(*old(self)),
            final(self).ends_as(r, header_spec(old(self).kinds(), old(self).pos())),
            r matches Ok(s) ==> s is Header,
            r matches Ok(st) ==> statement_in(st, old(self).source()),
            r matches Ok(st) ==> statement_text_is(st, old(self).source(), old(self).pos()),
    {
        let name_token = self.expect_peek(TokenKind::StringLiteral)?;
        let header_name = StringLiteral::from_token(&name_token);
        let kinds = vec![
            TokenKind::StringLiteral,
            TokenKind::Ident,
            TokenKind::MultiLineStringLiteral { head: false, tail: false },
        ];
        proof {
            assert(kinds@ =~= header_value_kinds());
        }
        self.next_expecting_one_of(kinds)?;
        let value = self.parse_expression()?;
        Ok(Statement::Header { name: header_name, value })
    }

    /// A body statement: `body` and a value.
    fn parse_body(&mut self) -> (r: ParseResult<'i, Statement<'i>>)
        requires
            old(self).started(),
            old(self).k(old(self).pos()) == TokenKind::Body,
        ensures
            final(self).moved_on(*old(self)),
            final(self).ends_as(r, expr_spec(old(self).kinds(), old(self).pos() + 1)),
            r matches Ok(s) ==> (s matches Statement::Body { start, .. } && start == start_of(
                old(self).curr(),
            )),
            r matches Ok(st) ==> statement_in(st, old(self).source()),
            r matches Ok(st) ==> statement_text_is(st, old(self).source(), old(self).pos()),
    {
        let start = start_location(&self.curr_token());
        self.next_token();
        let value = self.parse_expression()?;
        Ok(Statement::Body { value, start })
    }

    /// The block of a request, if a brace follows the current token.
    #[verifier::rlimit(100)]
    #[verifier::spinoff_prover]
    fn parse_block(&mut self) -> (r: ParseResult<'i, Option<Block<'i>>>)
        requires
            old(self).started(),
        ensures
            final(self).moved_on(*old(self)),
            final(self).ends_as(r, block_spec(old(self).kinds(), old(self).pos())),
            r matches Ok(b) ==> (b is Some <==> old(self).k(old(self).pos() + 1)
                == TokenKind::LBracket),
            r matches Ok(Some(b)) ==> has_line(old(self).source(), b.span.start.line as nat) && forall|i: int| 0 <= i < b.statements@.len() ==> statement_in(#[trigger] b.statements@[i], old(self).source()),
            r matches Ok(Some(b)) ==> statements_text_are(
                b.statements@,
                old(self).source(),
                statement_starts(old(self).kinds(), old(self).pos() + 2),
            ),
            r matches Ok(Some(b)) ==> starts_at(b.span.start, old(self).source(), old(self).pos() + 1)
                && starts_at(b.span.end, old(self).source(), final(self).pos()),
    {
        let ghost ks = self.kinds();
        let ghost p0 = self.pos();
        let p = self.peek_token();
        if p.kind != TokenKind::LBracket {
            return Ok(None);
        }
        let open_token = self.next_token();
        let span_start = start_location(&open_token);
        self.next_token();
        let mut statements: Vec<Statement<'i>> = Vec::new();
        let ghost mut sts: Seq<int> = Seq::empty();
        proof {
            assert(sts + statement_starts(ks, p0 + 2) =~= statement_starts(ks, p0 + 2));
        }
        while self.curr_token().kind != TokenKind::RBracket && self.curr_token().kind
            != TokenKind::End
            invariant
                statement_starts(ks, p0 + 2) == sts + statement_starts(ks, self.pos()),
                statements_text_are(statements@, old(self).source(), sts),
                self.moved_on(*old(self)),
                self.kinds() == ks,
                ks == old(self).kinds(),
                p0 == old(self).pos(),
                self.pos() >= p0 + 2,
                old(self).k(p0 + 1) == TokenKind::LBracket,
                statements_spec(ks, p0 + 2) == statements_spec(ks, self.pos()),
                has_line(old(self).source(), span_start.line as nat),
                forall|i: int|
                    0 <= i < statements@.len() ==> statement_in(
                        #[trigger] statements@[i],
                        old(self).source(),
                    ),
            decreases self.dist(),
        {
            proof {
                self.lemma_held_kinds();
                self.lemma_source();
            }
            let t = self.curr_token();
            let ghost here = self.pos();
            let statement = match t.kind {
                TokenKind::Header => self.parse_header()?,
                TokenKind::Body => self.parse_body()?,
                TokenKind::Linecomment | TokenKind::Shebang => Statement::LineComment(
                    Literal::from_token(&t),
                ),
                _ => {
                    let kinds = vec![
                        TokenKind::Header,
                        TokenKind::Body,
                        TokenKind::Linecomment,
                        TokenKind::Shebang,
                    ];
                    proof {
                        assert(kinds@ =~= statement_kinds());
                    }
                    return Err(
                        self.error().expected_one_of_tokens(&t, kinds).with_message(
                            "may only declare headers or a body statement here",
                        ),
                    );
                },
            };
            proof {
                let e = self.pos();
                assert(advances(ks, here, e + 1));
                assert(statement_starts(ks, here) == seq![here] + statement_starts(ks, e + 1));
                assert(sts.push(here) + statement_starts(ks, e + 1) =~= sts + (seq![here]
                    + statement_starts(ks, e + 1)));
                sts = sts.push(here);
            }
            statements.push(statement);
            self.next_token();
        }
        proof {
            self.lemma_held_kinds();
            assert(sts + statement_starts(ks, self.pos()) =~= sts);
        }
        proof {
            self.lemma_held_kinds();
        }
        let end = start_location(&self.curr_token());
        proof {
            assert(is_token_at(old(self).source(), p0 + 1, open_token));
            assert(is_token_at(old(self).source(), self.pos(), self.curr()));
        }
        Ok(Some(Block { statements, span: Span::new(span_start, end) }))
    }

    /// A request: its method, a url or a path, and maybe a block.
    fn parse_request(&mut self, method: RequestMethod) -> (r: ParseResult<'i, Item<'i>>)
        requires
            old(self).started(),
        ensures
            final(self).moved_on(*old(self)),
            final(self).ends_as(r, request_spec(old(self).kinds(), old(self).pos())),
            r matches Ok(item) ==> (item matches Item::Request { method: m, endpoint, block, span }
                && m == method && span.start == start_of(old(self).curr()) && (endpoint is Url
                <==> old(self).k(old(self).pos() + 1) == TokenKind::Url) && (block is Some
                <==> old(self).k(old(self).pos() + 2) == TokenKind::LBracket)),
            r matches Ok(item) ==> item_in(item, old(self).source()),
            r matches Ok(item) ==> item_text_is(item, old(self).source(), old(self).pos()),
    {
        let start = start_location(&self.curr_token());
        let kinds = vec![TokenKind::Url, TokenKind::Pathname];
        proof {
            assert(kinds@ =~= endpoint_kinds());
        }
        let url = self.next_expecting_one_of(kinds)?;
        proof {
            self.lemma_held_kinds();
            self.lemma_source();
        }
        let endpoint = match url.kind {
            TokenKind::Url => Endpoint::Url(Literal::from_token(&url)),
            TokenKind::Pathname => Endpoint::Pathname(Literal::from_token(&url)),
            _ => {
                return Err(
                    self.error().expected_one_of_tokens(
                        &url,
                        vec![TokenKind::Url, TokenKind::Pathname],
                    ).with_message("expecting only a url and pathname here"),
                );
            },
        };
        let url_span = span_of(&url);
        let block = self.parse_block()?;
        let span_next = match &block {
            Some(b) => b.span,
            None => url_span,
        };
        Ok(Item::Request { span: start.to_end_of(span_next), method, endpoint, block })
    }

    /// A `set` statement: a name and a value.
    fn parse_set_statement(&mut self) -> (r: ParseResult<'i, Item<'i>>)
        requires
            old(self).started(),
        ensures
            final(self).moved_on(*old(self)),
            final(self).ends_as(r, set_spec(old(self).kinds(), old(self).pos())),
            r matches Ok(item) ==> item is SetConstant,
            r matches Ok(item) ==> item_in(item, old(self).source()),
            r matches Ok(item) ==> item_text_is(item, old(self).source(), old(self).pos()),
    {
        let id_token = self.expect_peek(TokenKind::Ident)?;
        let identifier = Identifier::from_token(&id_token);
        let kinds = vec![
            TokenKind::Ident,
            TokenKind::StringLiteral,
            TokenKind::MultiLineStringLiteral { head: false, tail: false },
        ];
        proof {
            assert(kinds@ =~= set_value_kinds());
        }
        self.next_expecting_one_of(kinds)?;
        let value = self.parse_expression()?;
        Ok(Item::SetConstant { identifier, value })
    }

    /// A `let` statement: a name, `=`, and a value.
    fn parse_let_statement(&mut self) -> (r: ParseResult<'i, Item<'i>>)
        requires
            old(self).started(),
        ensures
            final(self).moved_on(*old(self)),
            final(self).ends_as(r, let_spec(old(self).kinds(), old(self).pos())),
            r matches Ok(item) ==> item is Let,
            r matches Ok(item) ==> item_in(item, old(self).source()),
            r matches Ok(item) ==> item_text_is(item, old(self).source(), old(self).pos()),
    {
        let id_token = self.next_token();
        proof {
            self.lemma_held_kinds();
        }
        let identifier = Identifier::from_token(&id_token);
        self.expect_peek(TokenKind::Assign)?;
        self.next_token();
        let value = self.parse_expression()?;
        Ok(Item::Let { identifier, value })
    }

    /// An attribute: `@`, a name, and maybe parameters between parentheses.
    fn parse_attribute(&mut self) -> (r: ParseResult<'i, Item<'i>>)
        requires
            old(self).started(),
        ensures
            final(self).moved_on(*old(self)),
            final(self).ends_as(r, attribute_spec(old(self).kinds(), old(self).pos())),
            r matches Ok(item) ==> (item matches Item::Attribute { location, .. } && location
                == start_of(old(self).curr())),
            r matches Ok(item) ==> item_in(item, old(self).source()),
            r matches Ok(item) ==> item_text_is(item, old(self).source(), old(self).pos()),
    {
        let ghost ks = self.kinds();
        let ghost p0 = self.pos();
        let ghost mut sts: Seq<int> = Seq::empty();
        let location = start_location(&self.curr_token());
        let id_token = self.expect_peek(TokenKind::Ident)?;
        let identifier = Identifier::from_token(&id_token);
        let mut params: Vec<Expression<'i>> = Vec::new();
        let p = self.peek_token();
        if p.kind == TokenKind::LParen {
            self.next_token();
            self.next_token();
            proof {
                assert(attribute_spec(ks, p0) == args_spec(ks, p0 + 3));
            }
            while self.curr_token().kind != TokenKind::RParen
                invariant
                    self.moved_on(*old(self)),
                    self.kinds() == ks,
                    ks == old(self).kinds(),
                    p0 == old(self).pos(),
                    self.pos() >= p0 + 3,
                    args_spec(ks, p0 + 3) == args_spec(ks, self.pos()),
                    attribute_spec(ks, p0) == args_spec(ks, p0 + 3),
                    arg_starts(ks, p0 + 3) == sts + arg_starts(ks, self.pos()),
                    params@.len() == sts.len(),
                    forall|j: int|
                        0 <= j < sts.len() ==> expr_from(#[trigger] params@[j], old(self).source(), sts[j]),
                    location == start_of(old(self).curr()),
                    has_line(old(self).source(), location.line as nat),
                    has_line(old(self).source(), identifier.span.start.line as nat),
                    forall|i: int|
                        0 <= i < params@.len() ==> expr_in(#[trigger] params@[i], old(self).source()),
                decreases self.dist(),
            {
                proof {
                    self.lemma_held_kinds();
                }
                let ghost here = self.pos();
                let exp = self.parse_expression()?;
                proof {
                    let e = self.pos();
                    assert(advances(ks, here, e + 1));
                    assert(arg_starts(ks, here) == seq![here] + arg_starts(ks, e + 1));
                    assert(sts.push(here) + arg_starts(ks, e + 1) =~= sts + (seq![here] + arg_starts(
                        ks,
                        e + 1,
                    )));
                    sts = sts.push(here);
                }
                params.push(exp);
                self.next_token();
            }
            proof {
                self.lemma_held_kinds();
                assert(sts + arg_starts(ks, self.pos()) =~= sts);
            }
        }
        Ok(Item::Attribute { location, identifier, parameters: params })
    }

    /// The item that starts at the current token.
    fn parse_item(&mut self) -> (r: ParseResult<'i, Item<'i>>)
        requires
            old(self).started(),
        ensures
            final(self).moved_on(*old(self)),
            final(self).ends_as(r, item_spec(old(self).kinds(), old(self).pos())),
            r matches Ok(item) ==> item_kind_is(item, old(self).k(old(self).pos())),
            r matches Ok(item) ==> item_in(item, old(self).source()),
            r matches Ok(item) ==> item_text_is(item, old(self).source(), old(self).pos()),
    {
        proof {
            self.lemma_held_kinds();
        }
        let t = self.curr_token();
        match t.kind {
            TokenKind::Get => self.parse_request(RequestMethod::GET),
            TokenKind::Post => self.parse_request(RequestMethod::POST),
            TokenKind::Put => self.parse_request(RequestMethod::PUT),
            TokenKind::Patch => self.parse_request(RequestMethod::PATCH),
            TokenKind::Delete => self.parse_request(RequestMethod::DELETE),
            TokenKind::Linecomment | TokenKind::Shebang => Ok(
                Item::LineComment(Literal::from_token(&t)),
            ),
            TokenKind::SetKeyword => self.parse_set_statement(),
            TokenKind::AttributePrefix => self.parse_attribute(),
            TokenKind::Let => self.parse_let_statement(),
            _ => match self.parse_expression() {
                Ok(exp) => Ok(Item::Expr(exp)),
                Err(err) => Err(err),
            },
        }
    }

    /// Skips tokens until the next one starts a top-level item or is the end.
    fn eat_till_next_top_level_peek_token(&mut self)
        requires
            old(self).started(),
        ensures
            final(self).moved_on(*old(self)),
            final(self).pos() == skip_spec(old(self).kinds(), old(self).pos()),
    {
        let ghost ks = self.kinds();
        let ghost p0 = self.pos();
        loop
            invariant
                self.moved_on(*old(self)),
                self.kinds() == ks,
                ks == old(self).kinds(),
                p0 == old(self).pos(),
                skip_spec(ks, p0) == skip_spec(ks, self.pos()),
            ensures
                is_top_level(kat(ks, self.pos() + 1)),
            decreases self.dist(),
        {
            let p = self.peek_token();
            let is_top_level_token_ahead = match p.kind {
                TokenKind::Get | TokenKind::Post | TokenKind::Put | TokenKind::Patch
                | TokenKind::Delete | TokenKind::SetKeyword | TokenKind::AttributePrefix
                | TokenKind::Let | TokenKind::End => true,
                _ => false,
            };
            if is_top_level_token_ahead {
                break ;
            }
            self.next_token();
        }
    }

    /// Reads all the items that are left. The result is the program when no item
    /// failed; otherwise it is every error met, in order, with the items that
    /// were read. After an error the parser skips to the next token that starts
    /// a top-level item. Each item is of the sort its first token starts, and
    /// holds the names, texts and values of the tokens it was read from.
    #[verifier::rlimit(60)]
    pub fn parse(&mut self) -> (r: Result<Program<'i>, ParserErrors<'i>>)
        requires
            old(self).wf(),
        ensures
            ({
                let ks = old(self).kinds();
                let outcome = program_spec(ks, old(self).pos() + 1);
                let starts = outcome.0;
                let errs = outcome.1;
                let items = match r {
                    Ok(program) => program.items@,
                    Err(e) => e.incomplete_rogram.items@,
                };
                &&& r is Ok <==> errs.len() == 0
                &&& items.len() == starts.len()
                &&& forall|j: int|
                    0 <= j < starts.len() ==> item_kind_is(#[trigger] items[j], kat(ks, starts[j]))
                &&& forall|j: int|
                    0 <= j < starts.len() ==> item_text_is(#[trigger] items[j], old(self).source(), starts[j])
                &&& forall|j: int| 0 <= j < items.len() ==> item_in(#[trigger] items[j], old(self).source())
                &&& r matches Err(e) ==> e.errors@.len() == errs.len() && forall|j: int|
                    0 <= j < errs.len() ==> reported_at(
                        #[trigger] e.errors@[j],
                        errs[j],
                        old(self).source(),
                        old(self).source_str(),
                    )
            }),
            r matches Ok(program) ==> forall|j: int|
                0 <= j < program.items@.len() ==> item_in(
                    #[trigger] program.items@[j],
                    old(self).source(),
                ),
            r matches Ok(program) ==> program.items@.len() == program_spec(
                old(self).kinds(),
                old(self).pos() + 1,
            ).0.len() && forall|j: int|
                0 <= j < program.items@.len() ==> item_kind_is(
                    #[trigger] program.items@[j],
                    kat(
                        old(self).kinds(),
                        program_spec(old(self).kinds(), old(self).pos() + 1).0[j],
                    ),
                ) && forall|j: int|
                    0 <= j < program.items@.len() ==> item_text_is(
                        #[trigger] program.items@[j],
                        old(self).source(),
                        program_spec(old(self).kinds(), old(self).pos() + 1).0[j],
                    ),
    {
        let ghost ks = self.kinds();
        let ghost p_start = self.pos() + 1;
        let ghost src = self.source();
        let ghost code = self.source_str();
        let mut program = Program::new();
        let mut errors: Vec<ContextualError<ParseError>> = Vec::new();
        let ghost mut starts: Seq<int> = Seq::empty();
        let ghost mut errs: Seq<Expected> = Seq::empty();
        self.next_token();
        proof {
            assert(starts + program_spec(ks, p_start).0 =~= program_spec(ks, p_start).0);
            assert(errs + program_spec(ks, p_start).1 =~= program_spec(ks, p_start).1);
        }
        while self.curr_token().kind != TokenKind::End
            invariant
                self.wf(),
                self.current() is Some,
                self.kinds() == ks,
                self.source() == src,
                self.source_str() == code,
                ks == old(self).kinds(),
                src == old(self).source(),
                code == old(self).source_str(),
                p_start == old(self).pos() + 1,
                self.pos() >= p_start,
                program_spec(ks, p_start).0 == starts + program_spec(ks, self.pos()).0,
                program_spec(ks, p_start).1 == errs + program_spec(ks, self.pos()).1,
                program.items@.len() == starts.len(),
                forall|j: int|
                    0 <= j < starts.len() ==> item_kind_is(
                        #[trigger] program.items@[j],
                        kat(ks, starts[j]),
                    ),
                forall|j: int|
                    0 <= j < program.items@.len() ==> item_in(#[trigger] program.items@[j], src),
                forall|j: int|
                    0 <= j < starts.len() ==> item_text_is(#[trigger] program.items@[j], src, starts[j]),
                errors@.len() == errs.len(),
                forall|j: int|
                    0 <= j < errs.len() ==> reported_at(#[trigger] errors@[j], errs[j], src, code),
            decreases self.dist(),
        {
            proof {
                self.lemma_held_kinds();
                self.lemma_source();
            }
            let ghost here = self.pos();
            let t = self.curr_token();
            let result = self.parse_item();
            if t.kind == TokenKind::AttributePrefix && result.is_ok() {
                let valid_after_attribute = vec![
                    TokenKind::Get,
                    TokenKind::Post,
                    TokenKind::Put,
                    TokenKind::Patch,
                    TokenKind::Delete,
                    TokenKind::AttributePrefix,
                    TokenKind::Linecomment,
                ];
                proof {
                    assert(valid_after_attribute@ =~= after_attribute_kinds());
                }
                let ghost e = self.pos();
                if let Err(err) = self.expect_peek_one_of(valid_after_attribute) {
                    let err = err.with_message(
                        "after attributes should come requests or more attributes",
                    );
                    proof {
                        let x = Expected {
                            at: e + 1,
                            single: false,
                            kinds: dedup(after_attribute_kinds()),
                            message: Some(after_attribute_message()),
                        };
                        assert(reports(err, x, code, self.curr()));
                        lemma_program_attribute(ks, here, e);
                        let rest = program_spec(ks, e + 1);
                        assert(errs.push(x) + rest.1 =~= errs + (seq![x] + rest.1));
                        errs = errs.push(x);
                    }
                    errors.push(err);
                    continue ;
                }
            }
            match result {
                Ok(item) => {
                    proof {
                        let e = self.pos();
                        lemma_program_done(ks, here, e);
                        let rest = program_spec(ks, e + 1);
                        assert(starts.push(here) + rest.0 =~= starts + (seq![here] + rest.0));
                        starts = starts.push(here);
                    }
                    program.items.push(item);
                    self.next_token();
                },
                Err(error) => {
                    proof {
                        let x = match item_spec(ks, here) {
                            Parsed::Failed(x) => x,
                            Parsed::Done(_) => arbitrary(),
                        };
                        assert(reports(error, x, code, self.curr()));
                        parsing_goes_on_after_an_error(ks, here, x);
                        let sk = skip_spec(ks, x.at);
                        let rest = program_spec(ks, sk + 1);
                        assert(errs.push(x) + rest.1 =~= errs + (seq![x] + rest.1));
                        errs = errs.push(x);
                    }
                    errors.push(error);
                    self.eat_till_next_top_level_peek_token();
                    self.next_token();
                },
            }
        }
        proof {
            self.lemma_held_kinds();
            assert(starts + program_spec(ks, self.pos()).0 =~= starts);
            assert(errs + program_spec(ks, self.pos()).1 =~= errs);
        }
        if errors.len() == 0 {
            return Ok(program);
        }
        Err(ParserErrors::new(errors, program))
    }
}

} // verus!
