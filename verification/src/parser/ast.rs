//! The syntax tree of a program of the request language.
use vstd::prelude::*;
use vstd::string::*;
use vstd::utf8::*;

use crate::error_meta::has_line;
use crate::lexer::{Token, BACKTICK, QUOTE};
use crate::locations::{GetSpan, Location, Span};
use crate::text::{
    bytes_eq, bytes_less, bytes_lt, bytes_lt_is_a_strict_total_order, lemma_boundary_after_ascii,
    lemma_boundary_at_ascii, lemma_str_ends, substr,
};

verus! {

/// The items of a program, in order.
#[derive(Debug, PartialEq)]
pub struct Program<'i> {
    pub items: Vec<Item<'i>>,
}

impl<'i> Program<'i> {
    pub fn new() -> (r: Program<'i>)
        ensures
            r.items@.len() == 0,
    {
        Self { items: Vec::new() }
    }
}

/// The line and column span of a token, up to the column right after its text.
pub open spec fn token_span(t: Token) -> Span {
    Span {
        start: Location { line: t.start.line, col: t.start.col },
        end: Location { line: t.start.line, col: (t.start.col + t.text.spec_bytes().len()) as usize },
    }
}

/// A token's span can be computed.
pub open spec fn token_fits(t: Token) -> bool {
    t.start.col + t.text.spec_bytes().len() <= usize::MAX
}

pub fn span_of(token: &Token) -> (r: Span)
    requires
        token_fits(*token),
    ensures
        r == token_span(*token),
{
    token.span()
}

/// A name and where it is.
#[derive(Debug, PartialEq, Clone, Copy)]
pub struct Identifier<'i> {
    pub name: &'i str,
    pub span: Span,
}

impl<'i> Identifier<'i> {
    pub fn from_token(token: &Token<'i>) -> (r: Identifier<'i>)
        requires
            token_fits(*token),
        ensures
            r.name == token.text,
            r.span == token_span(*token),
    {
        Self { name: token.text, span: span_of(token) }
    }
}

/// A piece of source text and where it is.
#[derive(Debug, PartialEq, Clone, Copy)]
pub struct Literal<'i> {
    pub value: &'i str,
    pub span: Span,
}

impl<'i> Literal<'i> {
    pub fn from_token(token: &Token<'i>) -> (r: Literal<'i>)
        requires
            token_fits(*token),
        ensures
            r.value == token.text,
            r.span == token_span(*token),
    {
        Self { value: token.text, span: span_of(token) }
    }
}

/// A string with its quotes (`raw`) and without them (`value`).
#[derive(Debug, PartialEq, Clone, Copy)]
pub struct StringLiteral<'source> {
    pub raw: &'source str,
    pub value: &'source str,
    pub span: Span,
}

/// The byte range of the value of a string literal whose text is `t`: a pair of
/// double quotes or of backticks around it is dropped; a backtick alone at either
/// end is dropped too.
pub open spec fn string_value_range(t: Seq<u8>) -> (int, int) {
    let n = t.len() as int;
    if n > 1 && t[0] == QUOTE && t[n - 1] == QUOTE {
        (1, n - 1)
    } else if n > 1 && t[0] == BACKTICK && t[n - 1] == BACKTICK {
        (1, n - 1)
    } else if n > 0 && t[n - 1] == BACKTICK {
        (0, n - 1)
    } else if n > 0 && t[0] == BACKTICK {
        (1, n)
    } else {
        (0, n)
    }
}

/// The bytes of the value of a string literal whose text is `t`.
pub open spec fn string_value(t: Seq<u8>) -> Seq<u8> {
    t.subrange(string_value_range(t).0, string_value_range(t).1)
}

impl<'i> StringLiteral<'i> {
    pub fn from_token(token: &Token<'i>) -> (r: StringLiteral<'i>)
        requires
            token_fits(*token),
        ensures
            r.raw == token.text,
            r.value.spec_bytes() == string_value(token.text.spec_bytes()),
            r.span == token_span(*token),
    {
        let text = token.text;
        let b = text.as_bytes();
        let n = b.len();
        proof {
            lemma_str_ends(text);
            if n > 0 {
                if b@[0] < 0x80 {
                    lemma_boundary_after_ascii(b@, 0);
                }
                if b@[n - 1] < 0x80 {
                    lemma_boundary_at_ascii(b@, n - 1);
                }
            }
        }
        let value = if n > 1 && b[0] == QUOTE && b[n - 1] == QUOTE {
            substr(text, 1, n - 1)
        } else if n > 1 && b[0] == BACKTICK && b[n - 1] == BACKTICK {
            substr(text, 1, n - 1)
        } else if n > 0 && b[n - 1] == BACKTICK {
            substr(text, 0, n - 1)
        } else if n > 0 && b[0] == BACKTICK {
            substr(text, 1, n)
        } else {
            text
        };
        proof {
            if !(n > 0 && (b@[n - 1] == BACKTICK || b@[0] == BACKTICK)) {
                assert(b@.subrange(0, n as int) =~= b@);
            }
        }
        Self { raw: text, value, span: span_of(token) }
    }
}

/// The statements of a request, between braces.
#[derive(Debug, PartialEq)]
pub struct Block<'i> {
    pub statements: Vec<Statement<'i>>,
    pub span: Span,
}

/// The top-level items of a program.
#[derive(Debug, PartialEq)]
pub enum Item<'i> {
    SetConstant { identifier: Identifier<'i>, value: Expression<'i> },
    Let { identifier: Identifier<'i>, value: Expression<'i> },
    LineComment(Literal<'i>),
    Request {
        method: RequestMethod,
        endpoint: Endpoint<'i>,
        block: Option<Block<'i>>,
        span: Span,
    },
    Attribute { location: Location, identifier: Identifier<'i>, parameters: Vec<Expression<'i>> },
    Expr(Expression<'i>),
}

/// The methods of requests.
#[derive(Debug, PartialEq, Eq, Clone, Copy, Structural)]
pub enum RequestMethod {
    GET,
    POST,
    DELETE,
    PATCH,
    PUT,
}

/// The statements of a request block.
#[derive(Debug, PartialEq)]
pub enum Statement<'i> {
    Header { name: StringLiteral<'i>, value: Expression<'i> },
    Body { value: Expression<'i>, start: Location },
    LineComment(Literal<'i>),
}

/// Expressions.
#[derive(Debug, PartialEq)]
pub enum Expression<'i> {
    Identifier(Identifier<'i>),
    String(StringLiteral<'i>),
    Bool(Literal<'i>),
    Number(Literal<'i>),
    Call { identifier: Identifier<'i>, arguments: Vec<Expression<'i>> },
    TemplateSringLiteral { span: Span, parts: Vec<Expression<'i>> },
    EmptyObject(Span),
    Object((Span, Vec<(&'i str, Expression<'i>)>)),
    EmptyArray(Span),
    Array((Span, Vec<Expression<'i>>)),
    Null(Span),
}

/// The keys of the fields come in the order of their bytes, each once.
pub open spec fn keys_sorted(fields: Seq<(&str, Expression)>) -> bool {
    forall|a: int, b: int|
        0 <= a < b < fields.len() ==> bytes_lt(
            (#[trigger] fields[a]).0.spec_bytes(),
            (#[trigger] fields[b]).0.spec_bytes(),
        )
}

/// Some field has a key with the bytes `key`.
pub open spec fn has_key(fields: Seq<(&str, Expression)>, key: Seq<u8>) -> bool {
    exists|j: int| 0 <= j < fields.len() && (#[trigger] fields[j]).0.spec_bytes() == key
}

/// Some field has a key with the bytes `key` and the value `v`.
pub open spec fn has_field(fields: Seq<(&str, Expression)>, key: Seq<u8>, v: Expression) -> bool {
    exists|j: int| 0 <= j < fields.len() && (#[trigger] fields[j]).0.spec_bytes() == key && fields[j].1 == v
}

/// Sets the field `key` of an object to `value`: a field with the same key
/// gets the new value, otherwise the field goes in at its place in the order.
pub fn insert_field<'i>(fields: &mut Vec<(&'i str, Expression<'i>)>, key: &'i str, value: Expression<'i>)
    requires
        keys_sorted(old(fields)@),
    ensures
        keys_sorted(final(fields)@),
        has_field(final(fields)@, key.spec_bytes(), value),
        forall|kb: Seq<u8>, v: Expression<'i>|
            kb != key.spec_bytes() ==> (has_field(final(fields)@, kb, v) <==> has_field(
                old(fields)@,
                kb,
                v,
            )),
        final(fields)@.len() == old(fields)@.len() + if has_key(old(fields)@, key.spec_bytes()) {
            0int
        } else {
            1int
        },
        forall|j: int|
            0 <= j < final(fields)@.len() ==> (#[trigger] final(fields)@[j]).1 == value || old(
                fields,
            )@.contains(final(fields)@[j]),
{
    let ghost kb = key.spec_bytes();
    let mut j: usize = 0;
    while j < fields.len()
        invariant_except_break
            kb == key.spec_bytes(),
            0 <= j <= fields@.len(),
            fields@ == old(fields)@,
            keys_sorted(fields@),
            forall|a: int| 0 <= a < j ==> bytes_lt((#[trigger] fields@[a]).0.spec_bytes(), kb),
        ensures
            kb == key.spec_bytes(),
            0 <= j <= fields@.len(),
            fields@ == old(fields)@,
            keys_sorted(fields@),
            forall|a: int| 0 <= a < j ==> bytes_lt((#[trigger] fields@[a]).0.spec_bytes(), kb),
            j < fields@.len() ==> !bytes_lt(fields@[j as int].0.spec_bytes(), kb),
        decreases fields@.len() - j,
    {
        let k = fields[j].0;
        if !bytes_less(k.as_bytes(), key.as_bytes()) {
            break;
        }
        j = j + 1;
    }
    if j < fields.len() && bytes_eq(fields[j].0.as_bytes(), key.as_bytes()) {
        let k = fields[j].0;
        let ghost before = fields@;
        fields.set(j, (k, value));
        proof {
            assert(fields@[j as int].0.spec_bytes() == kb);
            assert forall|kb2: Seq<u8>, v: Expression<'i>| kb2 != kb implies (has_field(
                fields@,
                kb2,
                v,
            ) <==> has_field(before, kb2, v)) by {
                if has_field(fields@, kb2, v) {
                    let w = choose|w: int|
                        0 <= w < fields@.len() && (#[trigger] fields@[w]).0.spec_bytes() == kb2
                            && fields@[w].1 == v;
                    assert(before[w] == fields@[w]);
                }
                if has_field(before, kb2, v) {
                    let w = choose|w: int|
                        0 <= w < before.len() && (#[trigger] before[w]).0.spec_bytes() == kb2
                            && before[w].1 == v;
                    assert(before[w] == fields@[w]);
                }
            }
            assert(has_key(before, kb)) by {
                assert(before[j as int].0.spec_bytes() == kb);
            }
            assert forall|w: int| 0 <= w < fields@.len() implies (#[trigger] fields@[w]).1 == value
                || before.contains(fields@[w]) by {
                if w != j {
                    assert(before[w] == fields@[w]);
                }
            }
            assert forall|a: int, b: int| 0 <= a < b < fields@.len() implies bytes_lt(
                (#[trigger] fields@[a]).0.spec_bytes(),
                (#[trigger] fields@[b]).0.spec_bytes(),
            ) by {
                assert(before[a] == fields@[a] || a == j);
                assert(before[b] == fields@[b] || b == j);
                assert(before[a].0.spec_bytes() == fields@[a].0.spec_bytes());
                assert(before[b].0.spec_bytes() == fields@[b].0.spec_bytes());
                assert(bytes_lt(before[a].0.spec_bytes(), before[b].0.spec_bytes()));
            }
        }
    } else {
        let ghost before = fields@;
        proof {
            if j < before.len() {
                bytes_lt_is_a_strict_total_order(before[j as int].0.spec_bytes(), kb, kb);
                assert(bytes_lt(kb, before[j as int].0.spec_bytes()));
            }
        }
        fields.insert(j, (key, value));
        proof {
            let after = fields@;
            assert(after[j as int] == (key, value));
            assert forall|a: int| 0 <= a < before.len() implies (#[trigger] before[a]).0.spec_bytes()
                != kb by {
                if a < j {
                    bytes_lt_is_a_strict_total_order(kb, kb, kb);
                } else {
                    if a > j {
                        bytes_lt_is_a_strict_total_order(
                            kb,
                            before[j as int].0.spec_bytes(),
                            before[a].0.spec_bytes(),
                        );
                    }
                    bytes_lt_is_a_strict_total_order(kb, kb, kb);
                }
            }
            assert(!has_key(before, kb));
            assert forall|a: int, b: int| 0 <= a < b < after.len() implies bytes_lt(
                (#[trigger] after[a]).0.spec_bytes(),
                (#[trigger] after[b]).0.spec_bytes(),
            ) by {
                if b < j {
                    assert(after[a] == before[a] && after[b] == before[b]);
                } else if b == j {
                    assert(after[a] == before[a]);
                } else if a == j {
                    assert(after[b] == before[b - 1]);
                    if b - 1 > j {
                        bytes_lt_is_a_strict_total_order(
                            kb,
                            before[j as int].0.spec_bytes(),
                            before[b - 1].0.spec_bytes(),
                        );
                    }
                } else if a < j {
                    assert(after[a] == before[a] && after[b] == before[b - 1]);
                    assert(bytes_lt(before[a].0.spec_bytes(), kb));
                    if b - 1 >= j {
                        if b - 1 > j {
                            bytes_lt_is_a_strict_total_order(
                                kb,
                                before[j as int].0.spec_bytes(),
                                before[b - 1].0.spec_bytes(),
                            );
                        }
                        bytes_lt_is_a_strict_total_order(
                            before[a].0.spec_bytes(),
                            kb,
                            before[b - 1].0.spec_bytes(),
                        );
                    }
                } else {
                    assert(after[a] == before[a - 1] && after[b] == before[b - 1]);
                }
            }
            assert forall|w: int| 0 <= w < after.len() implies (#[trigger] after[w]).1 == value
                || before.contains(after[w]) by {
                if w < j {
                    assert(before[w] == after[w]);
                } else if w > j {
                    assert(before[w - 1] == after[w]);
                }
            }
            assert forall|kb2: Seq<u8>, v: Expression<'i>| kb2 != kb implies (has_field(
                after,
                kb2,
                v,
            ) <==> has_field(before, kb2, v)) by {
                if has_field(after, kb2, v) {
                    let w = choose|w: int|
                        0 <= w < after.len() && (#[trigger] after[w]).0.spec_bytes() == kb2
                            && after[w].1 == v;
                    if w < j {
                        assert(before[w] == after[w]);
                    } else {
                        assert(w != j);
                        assert(before[w - 1] == after[w]);
                    }
                }
                if has_field(before, kb2, v) {
                    let w = choose|w: int|
                        0 <= w < before.len() && (#[trigger] before[w]).0.spec_bytes() == kb2
                            && before[w].1 == v;
                    if w < j {
                        assert(before[w] == after[w]);
                    } else {
                        assert(before[w] == after[w + 1]);
                    }
                }
            }
        }
    }
}

/// Where a request goes: a whole url, or a path under the base url.
#[derive(Debug, PartialEq)]
pub enum Endpoint<'i> {
    Url(Literal<'i>),
    Pathname(Literal<'i>),
}

/// The span of an expression. A call spans from its name to its last argument.
pub open spec fn expression_span(e: Expression) -> Span
    decreases e,
{
    match e {
        Expression::Identifier(i) => i.span,
        Expression::String(l) => l.span,
        Expression::Bool(l) => l.span,
        Expression::Number(l) => l.span,
        Expression::Call { identifier, arguments } => {
            if arguments.len() == 0 {
                identifier.span
            } else {
                Span {
                    start: identifier.span.start,
                    end: expression_span(arguments@[arguments.len() - 1]).end,
                }
            }
        },
        Expression::TemplateSringLiteral { span, .. } => span,
        Expression::EmptyObject(span) => span,
        Expression::Object((span, _)) => span,
        Expression::EmptyArray(span) => span,
        Expression::Array((span, _)) => span,
        Expression::Null(span) => span,
    }
}

impl<'i> Expression<'i> {
    fn expression_span(&self) -> (r: Span)
        ensures
            r == expression_span(*self),
        decreases self,
    {
        match self {
            Expression::Identifier(i) => i.span,
            Expression::String(l) => l.span,
            Expression::Bool(l) => l.span,
            Expression::Number(l) => l.span,
            Expression::Call { identifier, arguments } => {
                if arguments.len() == 0 {
                    identifier.span
                } else {
                    let last = &arguments[arguments.len() - 1];
                    proof {
                        assert(decreases_to!(*self => arguments@[arguments.len() - 1]));
                    }
                    identifier.span.to_end_of(last.expression_span())
                }
            },
            Expression::TemplateSringLiteral { span, .. } => *span,
            Expression::EmptyObject(span) => *span,
            Expression::Object((span, _)) => *span,
            Expression::EmptyArray(span) => *span,
            Expression::Array((span, _)) => *span,
            Expression::Null(span) => *span,
        }
    }
}

/// Every span of the expression starts on a line of the text `src`.
pub open spec fn expr_in(e: Expression, src: Seq<u8>) -> bool
    decreases e,
{
    &&& has_line(src, expression_span(e).start.line as nat)
    &&& match e {
        Expression::Call { identifier, arguments } => {
            &&& has_line(src, identifier.span.start.line as nat)
            &&& forall|i: int| 0 <= i < arguments@.len() ==> expr_in(#[trigger] arguments@[i], src)
        },
        Expression::TemplateSringLiteral { parts, .. } => forall|i: int|
            0 <= i < parts@.len() ==> expr_in(#[trigger] parts@[i], src),
        Expression::Object((_, fields)) => forall|i: int|
            0 <= i < fields@.len() ==> expr_in(#[trigger] fields@[i].1, src),
        Expression::Array((_, items)) => forall|i: int|
            0 <= i < items@.len() ==> expr_in(#[trigger] items@[i], src),
        _ => true,
    }
}

/// Every span of the statement starts on a line of the text `src`.
pub open spec fn statement_in(s: Statement, src: Seq<u8>) -> bool {
    match s {
        Statement::Header { name, value } => has_line(src, name.span.start.line as nat) && expr_in(
            value,
            src,
        ),
        Statement::Body { value, start } => has_line(src, start.line as nat) && expr_in(value, src),
        Statement::LineComment(l) => has_line(src, l.span.start.line as nat),
    }
}

/// Every span of the item starts on a line of the text `src`.
pub open spec fn item_in(item: Item, src: Seq<u8>) -> bool {
    match item {
        Item::SetConstant { identifier, value } => has_line(src, identifier.span.start.line as nat)
            && expr_in(value, src),
        Item::Let { identifier, value } => has_line(src, identifier.span.start.line as nat)
            && expr_in(value, src),
        Item::LineComment(l) => has_line(src, l.span.start.line as nat),
        Item::Request { endpoint, block, span, .. } => {
            &&& has_line(src, span.start.line as nat)
            &&& has_line(src, endpoint_span(endpoint).start.line as nat)
            &&& block matches Some(b) ==> has_line(src, b.span.start.line as nat) && forall|i: int|
                0 <= i < b.statements@.len() ==> statement_in(#[trigger] b.statements@[i], src)
        },
        Item::Attribute { location, identifier, parameters } => {
            &&& has_line(src, location.line as nat)
            &&& has_line(src, identifier.span.start.line as nat)
            &&& forall|i: int| 0 <= i < parameters@.len() ==> expr_in(#[trigger] parameters@[i], src)
        },
        Item::Expr(e) => expr_in(e, src),
    }
}

impl<'i> GetSpan for Expression<'i> {
    open spec fn spec_span(&self) -> Span {
        expression_span(*self)
    }

    open spec fn span_fits(&self) -> bool {
        true
    }

    fn span(&self) -> (r: Span) {
        self.expression_span()
    }
}

pub open spec fn statement_span(s: Statement) -> Span {
    match s {
        Statement::Header { name, value } => Span { start: name.span.start, end: expression_span(value).end },
        Statement::Body { value, start } => Span { start, end: expression_span(value).end },
        Statement::LineComment(l) => l.span,
    }
}

impl<'i> GetSpan for Statement<'i> {
    open spec fn spec_span(&self) -> Span {
        statement_span(*self)
    }

    open spec fn span_fits(&self) -> bool {
        true
    }

    fn span(&self) -> (r: Span) {
        match self {
            Statement::Header { name, value } => name.span.to_end_of(value.span()),
            Statement::Body { value, start } => start.to_end_of(value.span()),
            Statement::LineComment(literal) => literal.span,
        }
    }
}

pub open spec fn item_span(i: Item) -> Span {
    match i {
        Item::SetConstant { identifier, value } => Span { start: identifier.span.start, end: expression_span(value).end },
        Item::Let { identifier, value } => Span { start: identifier.span.start, end: expression_span(value).end },
        Item::LineComment(l) => l.span,
        Item::Request { span, .. } => span,
        Item::Attribute { location, identifier, parameters } => {
            if parameters.len() == 0 {
                Span { start: location, end: identifier.span.end }
            } else {
                Span { start: location, end: expression_span(parameters@[parameters.len() - 1]).end }
            }
        },
        Item::Expr(e) => expression_span(e),
    }
}

impl<'i> GetSpan for Item<'i> {
    open spec fn spec_span(&self) -> Span {
        item_span(*self)
    }

    open spec fn span_fits(&self) -> bool {
        true
    }

    fn span(&self) -> (r: Span) {
        match self {
            Item::SetConstant { identifier, value } => identifier.span.to_end_of(value.span()),
            Item::Let { identifier, value } => identifier.span.to_end_of(value.span()),
            Item::LineComment(l) => l.span,
            Item::Request { span, .. } => *span,
            Item::Attribute { location, identifier, parameters } => {
                if parameters.len() == 0 {
                    Span::new(*location, identifier.span.end)
                } else {
                    Span::new(*location, parameters[parameters.len() - 1].span().end)
                }
            },
            Item::Expr(e) => e.span(),
        }
    }
}

pub open spec fn endpoint_span(e: Endpoint) -> Span {
    match e {
        Endpoint::Url(l) => l.span,
        Endpoint::Pathname(l) => l.span,
    }
}

impl<'i> GetSpan for Endpoint<'i> {
    open spec fn spec_span(&self) -> Span {
        endpoint_span(*self)
    }

    open spec fn span_fits(&self) -> bool {
        true
    }

    fn span(&self) -> (r: Span) {
        match self {
            Endpoint::Url(l) => l.span,
            Endpoint::Pathname(l) => l.span,
        }
    }
}

} // verus!
