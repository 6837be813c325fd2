//! Evaluates programs into the requests they describe.
//!
//! Evaluation is pure: the values of `read(..)` calls are handed in as the
//! contents of files already read, and evaluation stops and names the file it
//! needs when one is missing, so that the caller can read it and start again.
pub mod error;
pub mod ir;
pub mod lines;
pub mod response;
pub mod runtime;

use vstd::prelude::*;
use vstd::string::*;
use vstd::utf8::*;

use crate::error_meta::{context_is, opt_view, ContextualError};
use crate::locations::{GetSpan, Location, Span};
use crate::names::{find_name, index_of, lemma_index_of_range, lookup, set_name, unique_names};
use crate::parser::ast::{
    endpoint_span, expr_in, expression_span, item_in, statement_in, Endpoint, Expression,
    Identifier, Item, Literal, Program, RequestMethod, Statement,
};
use crate::lexer::{kind_name, Token, TokenKind};
use crate::parser::error::kind_list;
use crate::parser::ast::token_span;
use crate::parser::{
    is_token_at, item_kind_is, item_text_is, kat, program_spec, reported_at, reports, step_kinds, Expected,
    Parser,
};
use crate::text::str_eq;
use self::error::{
    error_view, interp_error_text, points_into, ErrorView, str_debug, InterpError, InterpErrorFactory, IntoInterpError,
};
use self::ir::{Header, LogDestination, Request, RequestItem};
use self::lines::{escaped_from, escaping_new_lines};
use self::runtime::{attribute_index, Attribute, AttributeStore, Environment};

verus! {

/// An error as a reader sees it: what it says, where, and the message under it.
pub struct Fault {
    pub error: ErrorView,
    pub span: Span,
    pub message: Option<Seq<char>>,
}

/// What evaluating gives: a text, an error, or the path of a file that must be
/// read first.
pub enum Evaluated {
    Text(Seq<char>),
    Failed(Fault),
    Read(Seq<char>),
}

/// Why evaluation stopped: an error in the program, or a file to read first.
#[derive(Debug)]
pub enum Stop {
    Error(ContextualError<InterpError>),
    ReadFile(String),
}

/// Why a whole program was not evaluated: the errors found, in order, or a file
/// to read first.
#[derive(Debug)]
pub enum Halt {
    Errors(Vec<ContextualError<InterpError>>),
    ReadFile(String),
}

/// `e` is the error `f` in the text `code`.
pub open spec fn fault_is(e: ContextualError<InterpError>, f: Fault, code: &str) -> bool {
    &&& error_view(e.inner_error) == f.error
    &&& e.span == f.span
    &&& opt_view(e.message) == f.message
    &&& context_is(e.context, code, f.span.start.line as nat)
}

/// `r` stopped as `o` says.
pub open spec fn stopped_as<T>(r: Result<T, Stop>, o: Evaluated, code: &str) -> bool {
    match o {
        Evaluated::Text(_) => false,
        Evaluated::Failed(f) => (r matches Err(Stop::Error(e)) && fault_is(e, f, code)),
        Evaluated::Read(p) => (r matches Err(Stop::ReadFile(q)) && q@ == p),
    }
}

/// `r` is the outcome `o`.
pub open spec fn evaluated_as(r: Result<String, Stop>, o: Evaluated, code: &str) -> bool {
    match o {
        Evaluated::Text(v) => (r matches Ok(s) && s@ == v),
        _ => stopped_as(r, o, code),
    }
}

pub open spec fn get_opt(m: Map<Seq<char>, Seq<char>>, k: Seq<char>) -> Option<Seq<char>> {
    if m.contains_key(k) {
        Some(m[k])
    } else {
        None
    }
}

/// What reading the file `path` gave, if it was read.
pub open spec fn file_text(files: Seq<(String, Result<String, String>)>, path: Seq<char>) -> Option<
    Result<Seq<char>, Seq<char>>,
> {
    let i = index_of(files, path);
    if i < 0 {
        None
    } else {
        match files[i].1 {
            Ok(c) => Some(Ok(c@)),
            Err(t) => Some(Err(t@)),
        }
    }
}


/// The message of a call of a built-in function without its argument.
pub open spec fn missing_argument_message(name: Seq<char>) -> Seq<char> {
    if name == "env"@ {
        "calls to env(..) must include a variable name argument"@
    } else if name == "read"@ {
        "calls to read(..) must include a file name argument"@
    } else if name == "json"@ {
        "calls to json(..) must include an argument"@
    } else {
        "calls to escape_new_lines(..) must include an argument"@
    }
}

pub open spec fn is_builtin(name: Seq<char>) -> bool {
    name == "env"@ || name == "read"@ || name == "escape_new_lines"@ || name == "json"@
}

/// The lowercase hexadecimal digit of `d`, below 16.
pub open spec fn hex_digit(d: nat) -> char {
    if d < 10 {
        ('0' as nat + d) as char
    } else {
        ('a' as nat + (d - 10)) as char
    }
}

/// A character as it stands inside a JSON string: a quote and a backslash get a
/// backslash before them; backspace, tab, line feed, form feed and carriage
/// return are written `\b`, `\t`, `\n`, `\f` and `\r`; any other character
/// below 0x20 is written `\u00` and two lowercase hexadecimal digits; every
/// other character stands as it is.
pub open spec fn json_escape(c: char) -> Seq<char> {
    if c == '"' {
        seq!['\\', '"']
    } else if c == '\\' {
        seq!['\\', '\\']
    } else if c == '\u{8}' {
        seq!['\\', 'b']
    } else if c == '\t' {
        seq!['\\', 't']
    } else if c == '\n' {
        seq!['\\', 'n']
    } else if c == '\u{c}' {
        seq!['\\', 'f']
    } else if c == '\r' {
        seq!['\\', 'r']
    } else if (c as nat) < 0x20 {
        seq!['\\', 'u', '0', '0', hex_digit(c as nat / 16), hex_digit(c as nat % 16)]
    } else {
        seq![c]
    }
}

/// The characters of a string, each as it stands inside a JSON string.
pub open spec fn json_escaped(s: Seq<char>) -> Seq<char>
    decreases s.len(),
{
    if s.len() == 0 {
        Seq::empty()
    } else {
        json_escaped(s.drop_last()) + json_escape(s.last())
    }
}

/// The JSON text of a string: its escaped characters between double quotes.
pub open spec fn json_string(s: Seq<char>) -> Seq<char> {
    seq!['"'] + json_escaped(s) + seq!['"']
}

/// `serde_json::to_string` on a `str`: the string as a JSON string, escaped
/// as `json_string` says (the escape table and hex digits of serde_json's
/// serializer). Writing a `str` into a string cannot fail, so the error branch
/// is never taken.
#[verifier::external_body]
fn json_quote(s: &str) -> (r: String)
    ensures
        r@ == json_string(s@),
{
    match serde_json::to_string(s) {
        Ok(t) => t,
        Err(_) => String::new(),
    }
}

/// The fields of an object as JSON, `"key":value` each, separated by commas.
pub open spec fn json_fields(
    fields: Seq<(&str, Expression)>,
    n: nat,
    lets: Map<Seq<char>, Seq<char>>,
    env: Environment,
    files: Seq<(String, Result<String, String>)>,
) -> Evaluated
    decreases fields, n,
{
    if n == 0 || n > fields.len() {
        Evaluated::Text(Seq::empty())
    } else {
        match json_fields(fields, (n - 1) as nat, lets, env, files) {
            Evaluated::Text(a) => match json_value(fields[n - 1].1, lets, env, files) {
                Evaluated::Text(b) => {
                    let item = json_string(fields[n - 1].0@) + ":"@ + b;
                    Evaluated::Text(
                        if n == 1 {
                            item
                        } else {
                            a + ","@ + item
                        },
                    )
                },
                o => o,
            },
            o => o,
        }
    }
}

/// The elements of an array as JSON, separated by commas.
pub open spec fn json_items(
    items: Seq<Expression>,
    n: nat,
    lets: Map<Seq<char>, Seq<char>>,
    env: Environment,
    files: Seq<(String, Result<String, String>)>,
) -> Evaluated
    decreases items, n,
{
    if n == 0 || n > items.len() {
        Evaluated::Text(Seq::empty())
    } else {
        match json_items(items, (n - 1) as nat, lets, env, files) {
            Evaluated::Text(a) => match json_value(items[n - 1], lets, env, files) {
                Evaluated::Text(b) => Evaluated::Text(
                    if n == 1 {
                        b
                    } else {
                        a + ","@ + b
                    },
                ),
                o => o,
            },
            o => o,
        }
    }
}

/// An object or an array written as JSON.
pub open spec fn json_compound(
    e: Expression,
    lets: Map<Seq<char>, Seq<char>>,
    env: Environment,
    files: Seq<(String, Result<String, String>)>,
) -> Evaluated
    decreases e, 1nat,
{
    match e {
        Expression::EmptyObject(_) => Evaluated::Text("{}"@),
        Expression::EmptyArray(_) => Evaluated::Text("[]"@),
        Expression::Object((_, fields)) => match json_fields(fields@, fields@.len(), lets, env, files) {
            Evaluated::Text(t) => Evaluated::Text("{"@ + t + "}"@),
            o => o,
        },
        Expression::Array((_, items)) => match json_items(items@, items@.len(), lets, env, files) {
            Evaluated::Text(t) => Evaluated::Text("["@ + t + "]"@),
            o => o,
        },
        _ => Evaluated::Text(Seq::empty()),
    }
}

/// The value of an expression as JSON: booleans, numbers and `null` as written,
/// objects and arrays as JSON, and any other value as a JSON string of its text.
pub open spec fn json_value(
    e: Expression,
    lets: Map<Seq<char>, Seq<char>>,
    env: Environment,
    files: Seq<(String, Result<String, String>)>,
) -> Evaluated
    decreases e, 3nat,
{
    match e {
        Expression::Bool(l) => Evaluated::Text(l.value@),
        Expression::Number(l) => Evaluated::Text(l.value@),
        Expression::Null(_) => Evaluated::Text("null"@),
        Expression::EmptyObject(_) => json_compound(e, lets, env, files),
        Expression::EmptyArray(_) => json_compound(e, lets, env, files),
        Expression::Object(_) => json_compound(e, lets, env, files),
        Expression::Array(_) => json_compound(e, lets, env, files),
        _ => match eval_spec(e, lets, env, files) {
            Evaluated::Text(t) => Evaluated::Text(json_string(t)),
            o => o,
        },
    }
}

/// What the built-in function `name` gives for the argument `v`.
pub open spec fn builtin_spec(
    name: Seq<char>,
    v: Seq<char>,
    span: Span,
    env: Environment,
    files: Seq<(String, Result<String, String>)>,
) -> Evaluated {
    if name == "env"@ {
        match env.value_of(v) {
            Some(x) => Evaluated::Text(x),
            None => Evaluated::Failed(
                Fault { error: ErrorView::EnvVariableNotFound(v), span, message: None },
            ),
        }
    } else if name == "read"@ {
        match file_text(files, v) {
            Some(Ok(c)) => Evaluated::Text(c),
            Some(Err(t)) => Evaluated::Failed(
                Fault { error: ErrorView::Other("Error reading file '"@ + v + "': "@ + t), span, message: None },
            ),
            None => Evaluated::Read(v),
        }
    } else {
        Evaluated::Text(escaped_from(encode_utf8(v), 0))
    }
}

/// The value of an expression, with the `let` bindings `lets`, the variables of
/// `env`, and the files read so far.
pub open spec fn eval_spec(
    e: Expression,
    lets: Map<Seq<char>, Seq<char>>,
    env: Environment,
    files: Seq<(String, Result<String, String>)>,
) -> Evaluated
    decreases e, 2nat,
{
    match e {
        Expression::Identifier(id) => match get_opt(lets, id.name@) {
            Some(v) => Evaluated::Text(v),
            None => Evaluated::Failed(
                Fault {
                    error: ErrorView::UndeclaredIdentifier(id.name@),
                    span: id.span,
                    message: Some("variable identifiers are not supported"@),
                },
            ),
        },
        Expression::String(s) => Evaluated::Text(s.value@),
        Expression::Bool(l) => Evaluated::Text(l.value@),
        Expression::Number(l) => Evaluated::Text(l.value@),
        Expression::Null(_) => Evaluated::Text("null"@),
        Expression::TemplateSringLiteral { parts, .. } => eval_parts(
            parts@,
            parts@.len(),
            lets,
            env,
            files,
        ),
        Expression::Call { identifier, arguments } => {
            if is_builtin(identifier.name@) {
                if arguments@.len() == 0 {
                    Evaluated::Failed(
                        Fault {
                            error: ErrorView::RequiredArguments(1, 0),
                            span: expression_span(e),
                            message: Some(missing_argument_message(identifier.name@)),
                        },
                    )
                } else if identifier.name@ == "json"@ {
                    json_value(arguments@[0], lets, env, files)
                } else {
                    match eval_spec(arguments@[0], lets, env, files) {
                        Evaluated::Text(v) => builtin_spec(
                            identifier.name@,
                            v,
                            expression_span(e),
                            env,
                            files,
                        ),
                        o => o,
                    }
                }
            } else {
                Evaluated::Failed(
                    Fault {
                        error: ErrorView::UndefinedCallable(identifier.name@),
                        span: identifier.span,
                        message: Some(
                            "env(..), read(..), json(..), and escape_new_lines(..) are the only calls supported"@,
                        ),
                    },
                )
            }
        },
        _ => json_compound(e, lets, env, files),
    }
}

/// The first `n` parts of a template string, evaluated and joined.
pub open spec fn eval_parts(
    parts: Seq<Expression>,
    n: nat,
    lets: Map<Seq<char>, Seq<char>>,
    env: Environment,
    files: Seq<(String, Result<String, String>)>,
) -> Evaluated
    decreases parts, n,
{
    if n == 0 || n > parts.len() {
        Evaluated::Text(Seq::empty())
    } else {
        match eval_parts(parts, (n - 1) as nat, lets, env, files) {
            Evaluated::Text(a) => match eval_spec(parts[n - 1], lets, env, files) {
                Evaluated::Text(b) => Evaluated::Text(a + b),
                o => o,
            },
            o => o,
        }
    }
}

/// Where the response of a request is written, as a reader sees it.
pub enum LogView {
    Std,
    File(Seq<char>),
}

/// A request as a reader sees it.
pub struct RequestView {
    pub name: Option<Seq<char>>,
    pub dbg: bool,
    pub span: Span,
    pub method: RequestMethod,
    pub url: Seq<char>,
    pub headers: Seq<(Seq<char>, Seq<char>)>,
    pub body: Option<Seq<char>>,
    pub log: Option<LogView>,
}

/// What evaluating a program has gathered so far: the base url, the `let`
/// bindings, the attributes waiting for the next request, and the requests.
#[verifier::ext_equal]
pub struct EvalState<'s> {
    pub base_url: Option<Seq<char>>,
    pub lets: Map<Seq<char>, Seq<char>>,
    pub attrs: Seq<Attribute<'s>>,
    pub requests: Seq<RequestView>,
}

pub open spec fn log_view(l: Option<LogDestination>) -> Option<LogView> {
    match l {
        Some(LogDestination::Std) => Some(LogView::Std),
        Some(LogDestination::File(p)) => Some(LogView::File(p@)),
        None => None,
    }
}

pub open spec fn header_view(h: Header) -> (Seq<char>, Seq<char>) {
    (h.name@, h.value@)
}

/// How a request reads.
pub open spec fn view_of(r: RequestItem) -> RequestView {
    RequestView {
        name: opt_view(r.name),
        dbg: r.dbg,
        span: r.span,
        method: r.request.method,
        url: r.request.url@,
        headers: r.request.headers@.map_values(|h: Header| header_view(h)),
        body: opt_view(r.request.body),
        log: log_view(r.log_destination),
    }
}

/// An attribute named `name` is among `attrs`.
pub open spec fn holds_attr(attrs: Seq<Attribute>, name: Seq<char>) -> bool {
    exists|i: int| 0 <= i < attrs.len() && (#[trigger] attrs[i]).name@ == name
}

/// The url a request goes to.
pub open spec fn endpoint_eval(endpoint: Endpoint, base_url: Option<Seq<char>>) -> Evaluated {
    match endpoint {
        Endpoint::Url(l) => Evaluated::Text(l.value@),
        Endpoint::Pathname(pn) => match base_url {
            Some(b) => Evaluated::Text(
                if pn.value.spec_bytes().len() > 1 {
                    b + pn.value@
                } else {
                    b
                },
            ),
            None => Evaluated::Failed(
                Fault {
                    error: ErrorView::RequestWithPathnameWithoutBaseUrl,
                    span: pn.span,
                    message: None,
                },
            ),
        },
    }
}

/// The headers and the body the first `n` statements of a block give: every
/// header in order, and the first body.
pub open spec fn block_eval(
    stmts: Seq<Statement>,
    n: nat,
    lets: Map<Seq<char>, Seq<char>>,
    env: Environment,
    files: Seq<(String, Result<String, String>)>,
) -> Result<(Seq<(Seq<char>, Seq<char>)>, Option<Seq<char>>), Evaluated>
    decreases n,
{
    if n == 0 || n > stmts.len() {
        Ok((Seq::empty(), None))
    } else {
        match block_eval(stmts, (n - 1) as nat, lets, env, files) {
            Ok((hs, body)) => match stmts[n - 1] {
                Statement::Header { name, value } => match eval_spec(value, lets, env, files) {
                    Evaluated::Text(v) => Ok((hs.push((name.value@, v)), body)),
                    o => Err(o),
                },
                Statement::Body { value, .. } => if body is None {
                    match eval_spec(value, lets, env, files) {
                        Evaluated::Text(v) => Ok((hs, Some(v))),
                        o => Err(o),
                    }
                } else {
                    Ok((hs, body))
                },
                Statement::LineComment(_) => Ok((hs, body)),
            },
            e => e,
        }
    }
}

pub open spec fn block_statements(block: Option<crate::parser::ast::Block>) -> Seq<Statement> {
    match block {
        Some(b) => b.statements@,
        None => Seq::empty(),
    }
}

/// The name `@name` gives the request.
pub open spec fn name_eval(
    attrs: Seq<Attribute>,
    lets: Map<Seq<char>, Seq<char>>,
    env: Environment,
    files: Seq<(String, Result<String, String>)>,
) -> Result<Option<Seq<char>>, Evaluated> {
    let i = attribute_index(attrs, "name"@);
    if i < 0 {
        Ok(None)
    } else if attrs[i].params@.len() == 0 {
        Err(
            Evaluated::Failed(
                Fault {
                    error: ErrorView::RequiredArguments(1, 0),
                    span: Span { start: attrs[i].location, end: attrs[i].location },
                    message: Some("@name(..) must be given an argument, like @name(\"req_1\")"@),
                },
            ),
        )
    } else {
        match eval_spec(attrs[i].params@[0], lets, env, files) {
            Evaluated::Text(v) => Ok(Some(v)),
            o => Err(o),
        }
    }
}

/// Where `@log` writes the response.
pub open spec fn log_eval(
    attrs: Seq<Attribute>,
    lets: Map<Seq<char>, Seq<char>>,
    env: Environment,
    files: Seq<(String, Result<String, String>)>,
) -> Result<Option<LogView>, Evaluated> {
    let i = attribute_index(attrs, "log"@);
    if i < 0 {
        Ok(None)
    } else if attrs[i].params@.len() == 0 {
        Ok(Some(LogView::Std))
    } else {
        match eval_spec(attrs[i].params@[0], lets, env, files) {
            Evaluated::Text(v) => Ok(Some(LogView::File(v))),
            o => Err(o),
        }
    }
}

/// The request a request item describes, with the attributes given to it.
pub open spec fn request_view_eval(
    method: RequestMethod,
    endpoint: Endpoint,
    block: Option<crate::parser::ast::Block>,
    span: Span,
    st: EvalState,
    env: Environment,
    files: Seq<(String, Result<String, String>)>,
) -> Result<RequestView, Evaluated> {
    match endpoint_eval(endpoint, st.base_url) {
        Evaluated::Text(url) => match block_eval(
            block_statements(block),
            block_statements(block).len(),
            st.lets,
            env,
            files,
        ) {
            Ok((hs, body)) => match name_eval(st.attrs, st.lets, env, files) {
                Ok(name) => match log_eval(st.attrs, st.lets, env, files) {
                    Ok(log) => Ok(
                        RequestView {
                            name,
                            dbg: holds_attr(st.attrs, "dbg"@),
                            span: Span { start: span.start, end: endpoint_span(endpoint).end },
                            method,
                            url,
                            headers: hs,
                            body,
                            log,
                        },
                    ),
                    Err(o) => Err(o),
                },
                Err(o) => Err(o),
            },
            Err(o) => Err(o),
        },
        o => Err(o),
    }
}

pub open spec fn is_known_attribute(name: Seq<char>) -> bool {
    name == "name"@ || name == "log"@ || name == "dbg"@ || name == "skip"@
}

/// What one item does to what evaluation has gathered.
#[verifier::opaque]
pub open spec fn item_eval<'s>(
    item: Item<'s>,
    st: EvalState<'s>,
    env: Environment,
    files: Seq<(String, Result<String, String>)>,
) -> Result<EvalState<'s>, Evaluated> {
    match item {
        Item::Request { method, endpoint, block, span } => if holds_attr(st.attrs, "skip"@) {
            Ok(EvalState { attrs: Seq::empty(), ..st })
        } else {
            match request_view_eval(method, endpoint, block, span, st, env, files) {
                Ok(r) => Ok(EvalState { attrs: Seq::empty(), requests: st.requests.push(r), ..st }),
                Err(o) => Err(o),
            }
        },
        Item::SetConstant { identifier, value } => if identifier.name@ != "BASE_URL"@ {
            Err(
                Evaluated::Failed(
                    Fault {
                        error: ErrorView::UnknownConstant(identifier.name@),
                        span: identifier.span,
                        message: None,
                    },
                ),
            )
        } else {
            match eval_spec(value, st.lets, env, files) {
                Evaluated::Text(v) => Ok(EvalState { base_url: Some(v), ..st }),
                o => Err(o),
            }
        },
        Item::LineComment(_) => Ok(st),
        Item::Attribute { identifier, parameters, .. } => if is_known_attribute(identifier.name@) {
            if holds_attr(st.attrs, identifier.name@) {
                Err(
                    Evaluated::Failed(
                        Fault {
                            error: ErrorView::DuplicateAttribute(identifier.name@),
                            span: identifier.span,
                            message: None,
                        },
                    ),
                )
            } else {
                Ok(
                    EvalState {
                        attrs: st.attrs.push(
                            Attribute {
                                name: identifier.name,
                                location: identifier.span.start,
                                params: parameters,
                            },
                        ),
                        ..st
                    },
                )
            }
        } else {
            Err(
                Evaluated::Failed(
                    Fault {
                        error: ErrorView::UnsupportedAttribute(identifier.name@),
                        span: identifier.span,
                        message: Some(
                            "@name, @log, @skip and @dbg are the only supported attributes"@,
                        ),
                    },
                ),
            )
        },
        Item::Let { identifier, value } => match eval_spec(value, st.lets, env, files) {
            Evaluated::Text(v) => Ok(EvalState { lets: st.lets.insert(identifier.name@, v), ..st }),
            o => Err(o),
        },
        Item::Expr(_) => Ok(st),
    }
}

pub open spec fn initial_state<'s>() -> EvalState<'s> {
    EvalState {
        base_url: None,
        lets: Map::empty(),
        attrs: Seq::empty(),
        requests: Seq::empty(),
    }
}

/// Evaluating the first `n` items: the state reached and the errors met, each
/// item that fails leaving the state as it was; or a file to read first.
pub open spec fn items_run<'s>(
    items: Seq<Item<'s>>,
    n: nat,
    env: Environment,
    files: Seq<(String, Result<String, String>)>,
) -> Result<(EvalState<'s>, Seq<Fault>), Seq<char>>
    decreases n,
{
    if n == 0 || n > items.len() {
        Ok((initial_state(), Seq::empty()))
    } else {
        match items_run(items, (n - 1) as nat, env, files) {
            Ok((st, faults)) => match item_eval(items[n - 1], st, env, files) {
                Ok(st2) => Ok((st2, faults)),
                Err(Evaluated::Failed(f)) => Ok((st, faults.push(f))),
                Err(Evaluated::Read(p)) => Err(p),
                Err(Evaluated::Text(_)) => Ok((st, faults)),
            },
            Err(p) => Err(p),
        }
    }
}

/// Every attribute stands on a line of `src`, and so do its parameters.
pub open spec fn attrs_in(attrs: Seq<Attribute>, src: Seq<u8>) -> bool {
    forall|i: int|
        0 <= i < attrs.len() ==> {
            &&& crate::error_meta::has_line(src, (#[trigger] attrs[i]).location.line as nat)
            &&& forall|j: int| 0 <= j < attrs[i].params@.len() ==> expr_in(#[trigger] attrs[i].params@[j], src)
        }
}

/// Once evaluating the parts of a template stops, evaluating more of them stops
/// the same way.
pub proof fn lemma_parts_stop(
    parts: Seq<Expression>,
    m: nat,
    n: nat,
    lets: Map<Seq<char>, Seq<char>>,
    env: Environment,
    files: Seq<(String, Result<String, String>)>,
)
    requires
        m <= n <= parts.len(),
        !(eval_parts(parts, m, lets, env, files) is Text),
    ensures
        eval_parts(parts, n, lets, env, files) == eval_parts(parts, m, lets, env, files),
    decreases n - m,
{
    if n > m {
        lemma_parts_stop(parts, m, (n - 1) as nat, lets, env, files);
    }
}

/// Once evaluating the statements of a block stops, more statements stop it the
/// same way.
pub proof fn lemma_block_stop(
    stmts: Seq<Statement>,
    m: nat,
    n: nat,
    lets: Map<Seq<char>, Seq<char>>,
    env: Environment,
    files: Seq<(String, Result<String, String>)>,
)
    requires
        m <= n <= stmts.len(),
        block_eval(stmts, m, lets, env, files) is Err,
    ensures
        block_eval(stmts, n, lets, env, files) == block_eval(stmts, m, lets, env, files),
    decreases n - m,
{
    if n > m {
        lemma_block_stop(stmts, m, (n - 1) as nat, lets, env, files);
    }
}

/// Once writing the fields of an object as JSON stops, more fields stop it the same way.
pub proof fn lemma_fields_stop<'s>(
    fields: Seq<(&'s str, Expression<'s>)>,
    m: nat,
    n: nat,
    lets: Map<Seq<char>, Seq<char>>,
    env: Environment,
    files: Seq<(String, Result<String, String>)>,
)
    requires
        m <= n <= fields.len(),
        json_fields(fields, m, lets, env, files) !is Text,
    ensures
        json_fields(fields, n, lets, env, files) == json_fields(fields, m, lets, env, files),
    decreases n - m,
{
    if n > m {
        lemma_fields_stop(fields, m, (n - 1) as nat, lets, env, files);
    }
}

/// Once writing the elements of an array as JSON stops, more elements stop it the same way.
pub proof fn lemma_items_json_stop<'s>(
    items: Seq<Expression<'s>>,
    m: nat,
    n: nat,
    lets: Map<Seq<char>, Seq<char>>,
    env: Environment,
    files: Seq<(String, Result<String, String>)>,
)
    requires
        m <= n <= items.len(),
        json_items(items, m, lets, env, files) !is Text,
    ensures
        json_items(items, n, lets, env, files) == json_items(items, m, lets, env, files),
    decreases n - m,
{
    if n > m {
        lemma_items_json_stop(items, m, (n - 1) as nat, lets, env, files);
    }
}

/// Once a file is to be read, evaluating more items asks for the same file.
pub proof fn lemma_items_stop<'s>(
    items: Seq<Item<'s>>,
    m: nat,
    n: nat,
    env: Environment,
    files: Seq<(String, Result<String, String>)>,
)
    requires
        m <= n <= items.len(),
        items_run(items, m, env, files) is Err,
    ensures
        items_run(items, n, env, files) == items_run(items, m, env, files),
    decreases n - m,
{
    if n > m {
        lemma_items_stop(items, m, (n - 1) as nat, env, files);
    }
}

/// `e` reports, as an error of the interpreter, the parse error that `x` says
/// was met in `src`: at the token at index `x.at`, with its message and the lines
/// around it.
pub open spec fn parse_error_reported(e: ContextualError<InterpError>, x: Expected, src: Seq<u8>, code: &str) -> bool {
    exists|t: Token|
        is_token_at(src, x.at, t) && e.span == token_span(t) && opt_view(e.message) == x.message
            && #[trigger] context_is(e.context, code, t.start.line as nat)
            && error_view(e.inner_error) == ErrorView::Other(expected_text(x, t))
}

/// How a token that parsing did not expect is named: by its kind, and for a url,
/// a comment or an illegal token also by its text.
pub open spec fn found_text(t: Token) -> Seq<char> {
    match t.kind {
        TokenKind::Url | TokenKind::Linecomment | TokenKind::IllegalToken => kind_name(t.kind) + "<"@
            + t.text@ + ">"@,
        _ => kind_name(t.kind),
    }
}

/// The words of a parse error: what parsing expected, and the token `t` it found.
pub open spec fn expected_text(x: Expected, t: Token) -> Seq<char> {
    if x.single {
        "expected "@ + kind_name(x.kinds[0]) + ", got "@ + found_text(t)
    } else {
        "expected either one of "@ + kind_list(x.kinds, ","@) + ", but got "@ + found_text(t)
    }
}

/// `es` are the errors `faults` in the text `code`, in order.
pub open spec fn faults_are(es: Seq<ContextualError<InterpError>>, faults: Seq<Fault>, code: &str) -> bool {
    &&& es.len() == faults.len()
    &&& forall|j: int| 0 <= j < es.len() ==> fault_is(#[trigger] es[j], faults[j], code)
}

/// The program `items` gives `r`: the requests it describes when no item fails;
/// otherwise the errors of every item that fails; or the file to read first.
pub open spec fn program_gives<'s>(
    r: Result<Vec<RequestItem>, Halt>,
    items: Seq<Item<'s>>,
    env: Environment,
    files: Seq<(String, Result<String, String>)>,
    code: &str,
) -> bool {
    match items_run(items, items.len(), env, files) {
        Ok((st, faults)) => if faults.len() == 0 {
            (r matches Ok(reqs) && reqs@.map_values(|q: RequestItem| view_of(q)) =~= st.requests)
        } else {
            (r matches Err(Halt::Errors(es)) && faults_are(es@, faults, code))
        },
        Err(p) => (r matches Err(Halt::ReadFile(q)) && q@ == p),
    }
}

/// What interpreting the text `code` gives `r`: when it does not parse, every
/// parse error in order; otherwise what the program read from it gives.
pub open spec fn interpretation_of<'s>(
    r: Result<Vec<RequestItem>, Halt>,
    code: &'s str,
    env: Environment,
    files: Seq<(String, Result<String, String>)>,
) -> bool {
    let src = code.spec_bytes();
    let outcome = program_spec(step_kinds(src), 0);
    &&& outcome.1.len() > 0 ==> (r matches Err(Halt::Errors(es)) && es@.len()
        == outcome.1.len() && forall|j: int|
        0 <= j < es@.len() ==> parse_error_reported(
            #[trigger] es@[j],
            outcome.1[j],
            src,
            code,
        ))
    &&& outcome.1.len() == 0 ==> exists|items: Seq<Item<'s>>|
        items.len() == outcome.0.len() && (forall|j: int|
            0 <= j < items.len() ==> item_kind_is(
                #[trigger] items[j],
                kat(step_kinds(src), outcome.0[j]),
            )) && (forall|j: int|
            0 <= j < items.len() ==> item_text_is(
                #[trigger] items[j],
                src,
                outcome.0[j],
            )) && #[trigger] program_gives(
            r,
            items,
            env,
            files,
            code,
        )
}

/// Interprets `code` with the variables of `env` and the files read so far:
/// the requests it describes, every error met, or a file to read first.
pub fn interpret_program(
    code: &str,
    env: Environment,
    files: &Vec<(String, Result<String, String>)>,
) -> (r: Result<Vec<RequestItem>, Halt>)
    requires
        2 * code.spec_bytes().len() + 8 <= usize::MAX,
        env.wf(),
        unique_names(files@),
    ensures
        interpretation_of(r, code, env, files@),
{
    let mut interpreter = Interpreter::new(code, env);
    interpreter.evaluate(files)
}

/// The requests to run: all of them when no names are given; otherwise those
/// whose name is among `request_names`.
pub open spec fn selected(r: RequestItem, request_names: Option<Seq<Seq<char>>>) -> bool {
    match (request_names, r.name) {
        (None, _) => true,
        (Some(_), None) => false,
        (Some(desired), Some(name)) => desired.contains(name@),
    }
}

/// The names asked for, as text.
pub open spec fn names_view(request_names: Option<Vec<String>>) -> Option<Seq<Seq<char>>> {
    match request_names {
        Some(v) => Some(v@.map_values(|s: String| s@)),
        None => None,
    }
}

/// Whether a request is kept when the names `names` are asked for.
pub open spec fn keeps(names: Option<Seq<Seq<char>>>) -> spec_fn(RequestItem) -> bool {
    |q: RequestItem| selected(q, names)
}

/// Keeps the requests to run, in order.
pub fn select_requests(requests: Vec<RequestItem>, request_names: &Option<Vec<String>>) -> (r: Vec<
    RequestItem,
>)
    ensures
        r@ == requests@.filter(keeps(names_view(*request_names))),
{
    proof {
        assert(keeping(names_view(*request_names), false) =~= keeps(names_view(*request_names)));
    }
    keep_requests(requests, request_names, false)
}

/// A request is kept: when `by_url`, as `picked` says, otherwise as `selected` says.
pub open spec fn kept(r: RequestItem, names: Option<Seq<Seq<char>>>, by_url: bool) -> bool {
    if by_url {
        picked(r, names)
    } else {
        selected(r, names)
    }
}

/// The test `kept`, as a function of the request.
pub open spec fn keeping(names: Option<Seq<Seq<char>>>, by_url: bool) -> spec_fn(RequestItem) -> bool {
    |q: RequestItem| kept(q, names, by_url)
}

/// Whether `key` is among the names `desired`.
fn is_among(desired: &Vec<String>, key: &str) -> (r: bool)
    ensures
        r == desired@.map_values(|s: String| s@).contains(key@),
{
    let mut j: usize = 0;
    while j < desired.len()
        invariant
            0 <= j <= desired@.len(),
            forall|k: int| 0 <= k < j ==> (#[trigger] desired@[k])@ != key@,
        decreases desired@.len() - j,
    {
        if str_eq(desired[j].as_str(), key) {
            proof {
                assert(desired@.map_values(|s: String| s@)[j as int] == key@);
            }
            return true;
        }
        j = j + 1;
    }
    proof {
        let dv = desired@.map_values(|s: String| s@);
        if dv.contains(key@) {
            let k = choose|k: int| 0 <= k < dv.len() && dv[k] == key@;
            assert(desired@[k]@ == key@);
        }
    }
    false
}

/// Whether a request is kept.
fn is_kept(q: &RequestItem, request_names: &Option<Vec<String>>, by_url: bool) -> (r: bool)
    ensures
        r == kept(*q, names_view(*request_names), by_url),
{
    match request_names {
        None => true,
        Some(desired) => match &q.name {
            Some(name) => is_among(desired, name.as_str()),
            None => by_url && is_among(desired, q.request.url.as_str()),
        },
    }
}

/// Keeps the requests that `kept` keeps, in order.
fn keep_requests(requests: Vec<RequestItem>, request_names: &Option<Vec<String>>, by_url: bool) -> (r: Vec<
    RequestItem,
>)
    ensures
        r@ == requests@.filter(keeping(names_view(*request_names), by_url)),
{
    let ghost keep_fn = keeping(names_view(*request_names), by_url);
    let ghost all = requests@;
    let mut rest = requests;
    let mut kept_so_far: Vec<RequestItem> = Vec::new();
    let ghost mut i: int = 0;
    proof {
        reveal(Seq::filter);
        assert(all.subrange(0, 0) =~= Seq::<RequestItem>::empty());
        assert(rest@ =~= all.subrange(0, all.len() as int));
    }
    while rest.len() > 0
        invariant
            0 <= i <= all.len(),
            rest@ =~= all.subrange(i, all.len() as int),
            kept_so_far@ == all.subrange(0, i).filter(keep_fn),
            keep_fn == keeping(names_view(*request_names), by_url),
        decreases rest@.len(),
    {
        let q = rest.remove(0);
        let keep = is_kept(&q, request_names, by_url);
        proof {
            reveal(Seq::filter);
            assert(q == all[i]);
            assert(all.subrange(0, i + 1).drop_last() =~= all.subrange(0, i));
        }
        if keep {
            kept_so_far.push(q);
        }
        proof {
            i = i + 1;
        }
    }
    proof {
        assert(all.subrange(0, all.len() as int) =~= all);
    }
    kept_so_far
}

// ---------------------------------------------------------------------------
// Laws of evaluation
// ---------------------------------------------------------------------------

/// A request after `@skip` is left out, and the attributes given to it are dropped.
pub proof fn skipped_requests_are_left_out<'s>(
    method: RequestMethod,
    endpoint: Endpoint<'s>,
    block: Option<crate::parser::ast::Block<'s>>,
    span: Span,
    st: EvalState<'s>,
    env: Environment,
    files: Seq<(String, Result<String, String>)>,
)
    requires
        holds_attr(st.attrs, "skip"@),
    ensures
        item_eval(Item::Request { method, endpoint, block, span }, st, env, files) == Ok::<
            EvalState<'s>,
            Evaluated,
        >(EvalState { attrs: Seq::empty(), ..st }),
{
    reveal(item_eval);
}

/// Attributes apply to the next request only: after a request none is left, and
/// a request adds one request at most, after those already gathered.
pub proof fn attributes_apply_to_the_next_request_only<'s>(
    method: RequestMethod,
    endpoint: Endpoint<'s>,
    block: Option<crate::parser::ast::Block<'s>>,
    span: Span,
    st: EvalState<'s>,
    env: Environment,
    files: Seq<(String, Result<String, String>)>,
)
    ensures
        item_eval(Item::Request { method, endpoint, block, span }, st, env, files) matches Ok(st2)
            ==> st2.attrs.len() == 0 && st2.requests.len() <= st.requests.len() + 1
            && st2.requests.subrange(0, st.requests.len() as int) == st.requests,
{
    reveal(item_eval);
    if item_eval(Item::Request { method, endpoint, block, span }, st, env, files) is Ok {
        let st2 = item_eval(Item::Request { method, endpoint, block, span }, st, env, files)->Ok_0;
        assert(st2.requests.subrange(0, st.requests.len() as int) =~= st.requests);
    }
}

/// Comments and expressions standing alone change nothing.
pub proof fn comments_and_lone_expressions_change_nothing<'s>(
    item: Item<'s>,
    st: EvalState<'s>,
    env: Environment,
    files: Seq<(String, Result<String, String>)>,
)
    requires
        item is LineComment || item is Expr,
    ensures
        item_eval(item, st, env, files) == Ok::<EvalState<'s>, Evaluated>(st),
{
    reveal(item_eval);
}

/// A name bound by `let` reads, in the items after it, as the value it was bound to.
pub proof fn a_binding_is_seen_by_later_items<'s>(
    identifier: Identifier<'s>,
    value: Expression<'s>,
    later: Identifier<'s>,
    st: EvalState<'s>,
    env: Environment,
    files: Seq<(String, Result<String, String>)>,
)
    requires
        later.name@ == identifier.name@,
        eval_spec(value, st.lets, env, files) is Text,
    ensures
        item_eval(Item::Let { identifier, value }, st, env, files) matches Ok(st2) && eval_spec(
            Expression::Identifier(later),
            st2.lets,
            env,
            files,
        ) == eval_spec(value, st.lets, env, files),
{
    reveal(item_eval);
}

/// Once `BASE_URL` is set, a request to a path goes to the base url followed by
/// the path; the path `/` alone goes to the base url.
pub proof fn paths_go_under_the_base_url<'s>(pathname: Literal<'s>, base: Seq<char>)
    ensures
        endpoint_eval(Endpoint::Pathname(pathname), Some(base)) == Evaluated::Text(
            if pathname.value.spec_bytes().len() > 1 {
                base + pathname.value@
            } else {
                base
            },
        ),
        endpoint_eval(Endpoint::Pathname(pathname), None) is Failed,
{
}

/// An attribute is given at most once to a request: giving it again is an error.
pub proof fn an_attribute_is_given_once<'s>(
    identifier: Identifier<'s>,
    location: Location,
    parameters: Vec<Expression<'s>>,
    st: EvalState<'s>,
    env: Environment,
    files: Seq<(String, Result<String, String>)>,
)
    requires
        holds_attr(st.attrs, identifier.name@),
    ensures
        item_eval(Item::Attribute { location, identifier, parameters }, st, env, files) is Err,
{
    reveal(item_eval);
}

/// Whether the runner runs a request when the names `names` are asked for: all
/// run when none are asked for; otherwise those whose name, or else whose url,
/// is among them.
pub open spec fn picked(r: RequestItem, names: Option<Seq<Seq<char>>>) -> bool {
    match names {
        None => true,
        Some(desired) => desired.contains(
            match r.name {
                Some(n) => n@,
                None => r.request.url@,
            },
        ),
    }
}

pub open spec fn picks(names: Option<Seq<Seq<char>>>) -> spec_fn(RequestItem) -> bool {
    |q: RequestItem| picked(q, names)
}

/// The requests the runner runs, in order: a request without a name is asked
/// for by its url.
pub fn pick_requests(requests: Vec<RequestItem>, request_names: &Option<Vec<String>>) -> (r: Vec<
    RequestItem,
>)
    ensures
        r@ == requests@.filter(picks(names_view(*request_names))),
{
    proof {
        assert(keeping(names_view(*request_names), true) =~= picks(names_view(*request_names)));
    }
    keep_requests(requests, request_names, true)
}

/// Evaluates programs of one source text, with the variables of an environment.
pub struct Interpreter<'source> {
    code: &'source str,
    error_factory: InterpErrorFactory<'source>,
    env: Environment,
    base_url: Option<String>,
    let_bindings: Vec<(String, String)>,
}

impl<'source> Interpreter<'source> {
    /// The source text.
    pub closed spec fn source_str(&self) -> &'source str {
        self.code
    }

    /// The environment whose variables `env(..)` reads.
    pub closed spec fn environment(&self) -> Environment {
        self.env
    }

    /// The values of the `let` bindings.
    pub closed spec fn lets(&self) -> Map<Seq<char>, Seq<char>> {
        Map::new(
            |k: Seq<char>| index_of(self.let_bindings@, k) >= 0,
            |k: Seq<char>| self.let_bindings@[index_of(self.let_bindings@, k)].1@,
        )
    }

    /// The base url, once set.
    pub closed spec fn base_url(&self) -> Option<Seq<char>> {
        opt_view(self.base_url)
    }

    pub closed spec fn inv(&self) -> bool {
        &&& self.error_factory.source() == self.code
        &&& 2 * self.code.spec_bytes().len() + 8 <= usize::MAX
        &&& self.env.wf()
        &&& unique_names(self.let_bindings@)
    }

    /// An interpreter of `code` that reads the variables of the selected
    /// namespace of `env`; when that namespace does not exist, `env(..)` finds no
    /// variable.
    pub fn new(code: &'source str, env: Environment) -> (r: Interpreter<'source>)
        requires
            2 * code.spec_bytes().len() + 8 <= usize::MAX,
            env.wf(),
        ensures
            r.inv(),
            r.source_str() == code,
            r.environment() == env,
            r.base_url() is None,
            r.lets() == Map::<Seq<char>, Seq<char>>::empty(),
    {
        let r = Self {
            error_factory: InterpErrorFactory::new(code),
            code,
            env,
            base_url: None,
            let_bindings: Vec::new(),
        };
        proof {
            assert(r.lets() =~= Map::<Seq<char>, Seq<char>>::empty());
        }
        r
    }

    proof fn lemma_lets(&self, k: Seq<char>)
        ensures
            get_opt(self.lets(), k) == lookup(self.let_bindings@, k),
    {
    }

    /// The value of a name bound by `let`.
    fn evaluate_identifier(&self, token: &Identifier) -> (r: Result<String, Stop>)
        requires
            self.inv(),
            points_into(self.code, token.span),
        ensures
            evaluated_as(
                r,
                match get_opt(self.lets(), token.name@) {
                    Some(v) => Evaluated::Text(v),
                    None => Evaluated::Failed(
                        Fault {
                            error: ErrorView::UndeclaredIdentifier(token.name@),
                            span: token.span,
                            message: Some("variable identifiers are not supported"@),
                        },
                    ),
                },
                self.source_str(),
            ),
    {
        proof {
            self.lemma_lets(token.name@);
        }
        match find_name(&self.let_bindings, token.name) {
            Some(i) => Ok(self.let_bindings[i].1.clone()),
            None => Err(
                Stop::Error(
                    self.error_factory.undeclared_identifier(token).with_message(
                        "variable identifiers are not supported",
                    ),
                ),
            ),
        }
    }

    /// The value of an expression.
    fn evaluate_expression(&self, exp: &Expression<'source>, files: &Vec<(String, Result<String, String>)>) -> (r: Result<String, Stop>)
        requires
            self.inv(),
            expr_in(*exp, self.source_str().spec_bytes()),
            unique_names(files@),
        ensures
            evaluated_as(r, eval_spec(*exp, self.lets(), self.environment(), files@), self.source_str()),
        decreases exp, 2nat,
    {
        match exp {
            Expression::Identifier(token) => self.evaluate_identifier(token),
            Expression::String(token) => Ok(token.value.to_string()),
            Expression::Bool(l) => Ok(l.value.to_string()),
            Expression::Number(l) => Ok(l.value.to_string()),
            Expression::Null(_) => Ok(String::from_str("null")),
            Expression::TemplateSringLiteral { parts, .. } => {
                let mut s = String::new();
                let mut i: usize = 0;
                while i < parts.len()
                    invariant
                        self.inv(),
                        unique_names(files@),
                        expr_in(*exp, self.source_str().spec_bytes()),
                        *exp matches Expression::TemplateSringLiteral { parts: ps, .. } && ps == parts,
                        0 <= i <= parts@.len(),
                        eval_parts(parts@, i as nat, self.lets(), self.environment(), files@)
                            == Evaluated::Text(s@),
                    decreases parts@.len() - i,
                {
                    proof {
                        assert(decreases_to!(*exp => parts@[i as int]));
                    }
                    let part = match self.evaluate_expression(&parts[i], files) {
                        Ok(part) => part,
                        Err(stop) => {
                            proof {
                                lemma_parts_stop(
                                    parts@,
                                    (i + 1) as nat,
                                    parts@.len(),
                                    self.lets(),
                                    self.environment(),
                                    files@,
                                );
                            }
                            return Err(stop);
                        },
                    };
                    s.append(part.as_str());
                    i = i + 1;
                }
                Ok(s)
            },
            Expression::Call { identifier, arguments } => {
                let span = exp.span();
                let name = identifier.name;
                let is_env = str_eq(name, "env");
                let is_read = str_eq(name, "read");
                let is_escape = str_eq(name, "escape_new_lines");
                let is_json = str_eq(name, "json");
                proof {
                    reveal_strlit("env");
                    reveal_strlit("read");
                    reveal_strlit("escape_new_lines");
                    reveal_strlit("json");
                }
                if !(is_env || is_read || is_escape || is_json) {
                    return Err(
                        Stop::Error(
                            self.error_factory.undefined_callable(identifier).with_message(
                                "env(..), read(..), json(..), and escape_new_lines(..) are the only calls supported",
                            ),
                        ),
                    );
                }
                if arguments.len() == 0 {
                    let message = if is_env {
                        "calls to env(..) must include a variable name argument"
                    } else if is_read {
                        "calls to read(..) must include a file name argument"
                    } else if is_json {
                        "calls to json(..) must include an argument"
                    } else {
                        "calls to escape_new_lines(..) must include an argument"
                    };
                    return Err(
                        Stop::Error(self.error_factory.required_args(span, 1, 0).with_message(message)),
                    );
                }
                proof {
                    assert(decreases_to!(*exp => arguments@[0]));
                }
                if is_json {
                    return self.evaluate_json(&arguments[0], files);
                }
                let value = self.evaluate_expression(&arguments[0], files)?;
                if is_env {
                    match self.env.get_variable_value(value.clone()) {
                        Some(v) => Ok(v.clone()),
                        None => Err(
                            Stop::Error(
                                self.error_factory.env_variable_not_found(
                                    &Literal { value: value.as_str(), span },
                                ),
                            ),
                        ),
                    }
                } else if is_read {
                    match find_name(files, value.as_str()) {
                        Some(i) => match &files[i].1 {
                            Ok(content) => Ok(content.clone()),
                            Err(error) => {
                                let mut m = String::from_str("Error reading file '");
                                m.append(value.as_str());
                                m.append("': ");
                                m.append(error.as_str());
                                Err(Stop::Error(self.error_factory.other(span, m.as_str())))
                            },
                        },
                        None => Err(Stop::ReadFile(value)),
                    }
                } else {
                    Ok(escaping_new_lines(value.as_str()))
                }
            },
            _ => self.json_compound_text(exp, files),
        }
    }

    /// An object or an array written as JSON.
    fn json_compound_text(&self, exp: &Expression<'source>, files: &Vec<(String, Result<String, String>)>) -> (r: Result<String, Stop>)
        requires
            self.inv(),
            expr_in(*exp, self.source_str().spec_bytes()),
            unique_names(files@),
        ensures
            evaluated_as(r, json_compound(*exp, self.lets(), self.environment(), files@), self.source_str()),
        decreases exp, 1nat,
    {
        match exp {
            Expression::EmptyObject(_) => Ok(String::from_str("{}")),
            Expression::EmptyArray(_) => Ok(String::from_str("[]")),
            Expression::Object((_, fields)) => {
                let mut s = String::new();
                let mut i: usize = 0;
                while i < fields.len()
                    invariant
                        self.inv(),
                        unique_names(files@),
                        expr_in(*exp, self.source_str().spec_bytes()),
                        *exp matches Expression::Object((_, fs)) && fs == fields,
                        0 <= i <= fields@.len(),
                        json_fields(fields@, i as nat, self.lets(), self.environment(), files@)
                            == Evaluated::Text(s@),
                    decreases fields@.len() - i,
                {
                    proof {
                        assert(decreases_to!(*exp => fields@[i as int].1));
                    }
                    let v = match self.evaluate_json(&fields[i].1, files) {
                        Ok(v) => v,
                        Err(stop) => {
                            proof {
                                lemma_fields_stop(fields@, (i + 1) as nat, fields@.len(), self.lets(), self.environment(), files@);
                            }
                            return Err(stop);
                        },
                    };
                    let ghost a = s@;
                    if i > 0 {
                        s.append(",");
                    }
                    let key = json_quote(fields[i].0);
                    s.append(key.as_str());
                    s.append(":");
                    s.append(v.as_str());
                    proof {
                        let item = json_string(fields@[i as int].0@) + ":"@ + v@;
                        reveal_strlit(",");
                        reveal_strlit(":");
                        if i == 0 {
                            assert(s@ =~= item);
                        } else {
                            assert(s@ =~= a + ","@ + item);
                        }
                    }
                    i = i + 1;
                }
                let mut t = String::from_str("{");
                t.append(s.as_str());
                t.append("}");
                Ok(t)
            },
            Expression::Array((_, items)) => {
                let mut s = String::new();
                let mut i: usize = 0;
                while i < items.len()
                    invariant
                        self.inv(),
                        unique_names(files@),
                        expr_in(*exp, self.source_str().spec_bytes()),
                        *exp matches Expression::Array((_, its)) && its == items,
                        0 <= i <= items@.len(),
                        json_items(items@, i as nat, self.lets(), self.environment(), files@)
                            == Evaluated::Text(s@),
                    decreases items@.len() - i,
                {
                    proof {
                        assert(decreases_to!(*exp => items@[i as int]));
                    }
                    let v = match self.evaluate_json(&items[i], files) {
                        Ok(v) => v,
                        Err(stop) => {
                            proof {
                                lemma_items_json_stop(items@, (i + 1) as nat, items@.len(), self.lets(), self.environment(), files@);
                            }
                            return Err(stop);
                        },
                    };
                    if i > 0 {
                        s.append(",");
                    }
                    s.append(v.as_str());
                    i = i + 1;
                }
                let mut t = String::from_str("[");
                t.append(s.as_str());
                t.append("]");
                Ok(t)
            },
            _ => Ok(String::new()),
        }
    }

    /// The value of an expression as JSON.
    fn evaluate_json(&self, exp: &Expression<'source>, files: &Vec<(String, Result<String, String>)>) -> (r: Result<String, Stop>)
        requires
            self.inv(),
            expr_in(*exp, self.source_str().spec_bytes()),
            unique_names(files@),
        ensures
            evaluated_as(r, json_value(*exp, self.lets(), self.environment(), files@), self.source_str()),
        decreases exp, 3nat,
    {
        match exp {
            Expression::Bool(l) => Ok(l.value.to_string()),
            Expression::Number(l) => Ok(l.value.to_string()),
            Expression::Null(_) => Ok(String::from_str("null")),
            Expression::EmptyObject(_) | Expression::EmptyArray(_) | Expression::Object(_)
            | Expression::Array(_) => self.json_compound_text(exp, files),
            _ => {
                let t = self.evaluate_expression(exp, files)?;
                Ok(json_quote(t.as_str()))
            },
        }
    }

    /// What is gathered matches `st`: base url, bindings, attributes and requests.
    pub open spec fn state_matches(
        &self,
        attributes: AttributeStore<'source>,
        requests: Seq<RequestItem>,
        st: EvalState<'source>,
    ) -> bool {
        &&& self.base_url() == st.base_url
        &&& self.lets() =~= st.lets
        &&& attributes.attributes() =~= st.attrs
        &&& requests.map_values(|q: RequestItem| view_of(q)) =~= st.requests
    }

    proof fn lemma_state_of(
        &self,
        attributes: AttributeStore<'source>,
        requests: Seq<RequestItem>,
        st: EvalState<'source>,
    )
        requires
            self.state_matches(attributes, requests, st),
        ensures
            self.state_of(attributes, requests) == st,
    {
        assert(self.state_of(attributes, requests) =~= st);
    }

    /// What is gathered, as a reader sees it.
    pub open spec fn state_of(
        &self,
        attributes: AttributeStore<'source>,
        requests: Seq<RequestItem>,
    ) -> EvalState<'source> {
        EvalState {
            base_url: self.base_url(),
            lets: self.lets(),
            attrs: attributes.attributes(),
            requests: requests.map_values(|q: RequestItem| view_of(q)),
        }
    }

    /// The url a request goes to: a whole url, or the base url followed by the
    /// path, unless the path is just `/`.
    fn evaluate_request_endpoint(&self, endpoint: &Endpoint) -> (r: Result<String, Stop>)
        requires
            self.inv(),
            crate::error_meta::has_line(
                self.source_str().spec_bytes(),
                endpoint_span(*endpoint).start.line as nat,
            ),
        ensures
            evaluated_as(r, endpoint_eval(*endpoint, self.base_url()), self.source_str()),
    {
        match endpoint {
            Endpoint::Url(url) => Ok(url.value.to_string()),
            Endpoint::Pathname(pn) => match &self.base_url {
                Some(b) => {
                    let mut base_url = b.clone();
                    if pn.value.as_bytes().len() > 1 {
                        base_url.append(pn.value);
                    }
                    Ok(base_url)
                },
                None => Err(Stop::Error(self.error_factory.unset_base_url(pn.span))),
            },
        }
    }

    /// The headers and the body of a block.
    fn evaluate_block(
        &self,
        block: &Option<crate::parser::ast::Block<'source>>,
        files: &Vec<(String, Result<String, String>)>,
    ) -> (r: Result<(Vec<Header>, Option<String>), Stop>)
        requires
            self.inv(),
            unique_names(files@),
            block matches Some(b) ==> forall|i: int|
                0 <= i < b.statements@.len() ==> statement_in(
                    #[trigger] b.statements@[i],
                    self.source_str().spec_bytes(),
                ),
        ensures
            match block_eval(
                block_statements(*block),
                block_statements(*block).len(),
                self.lets(),
                self.environment(),
                files@,
            ) {
                Ok((hs, body)) => (r matches Ok((h, b)) && h@.map_values(|x: Header| header_view(x))
                    =~= hs && opt_view(b) == body),
                Err(o) => stopped_as(r, o, self.source_str()),
            },
    {
        let mut headers: Vec<Header> = Vec::new();
        let mut body: Option<String> = None;
        match block {
            None => {},
            Some(b) => {
                let stmts = &b.statements;
                let mut i: usize = 0;
                while i < stmts.len()
                    invariant
                        self.inv(),
                        unique_names(files@),
                        *block matches Some(bb) && bb.statements == *stmts,
                        forall|k: int|
                            0 <= k < stmts@.len() ==> statement_in(
                                #[trigger] stmts@[k],
                                self.source_str().spec_bytes(),
                            ),
                        0 <= i <= stmts@.len(),
                        block_eval(stmts@, i as nat, self.lets(), self.environment(), files@)
                            matches Ok((hs, bo)) && headers@.map_values(|x: Header| header_view(x))
                            =~= hs && opt_view(body) == bo,
                    decreases stmts@.len() - i,
                {
                    let ghost before = block_eval(
                        stmts@,
                        i as nat,
                        self.lets(),
                        self.environment(),
                        files@,
                    );
                    match &stmts[i] {
                        Statement::Header { name, value } => {
                            match self.evaluate_expression(value, files) {
                                Ok(v) => {
                                    headers.push(Header::new(name.value.to_string(), v));
                                },
                                Err(stop) => {
                                    proof {
                                        lemma_block_stop(
                                            stmts@,
                                            (i + 1) as nat,
                                            stmts@.len(),
                                            self.lets(),
                                            self.environment(),
                                            files@,
                                        );
                                    }
                                    return Err(stop);
                                },
                            }
                        },
                        Statement::Body { value, .. } => {
                            if body.is_none() {
                                match self.evaluate_expression(value, files) {
                                    Ok(v) => {
                                        body = Some(v);
                                    },
                                    Err(stop) => {
                                        proof {
                                            lemma_block_stop(
                                                stmts@,
                                                (i + 1) as nat,
                                                stmts@.len(),
                                                self.lets(),
                                                self.environment(),
                                                files@,
                                            );
                                        }
                                        return Err(stop);
                                    },
                                }
                            }
                        },
                        Statement::LineComment(_) => {},
                    }
                    i = i + 1;
                }
            },
        }
        Ok((headers, body))
    }

    /// The request that a request item describes, with the attributes given to it.
    fn evaluate_request(
        &self,
        method: RequestMethod,
        endpoint: &Endpoint<'source>,
        block: &Option<crate::parser::ast::Block<'source>>,
        span: Span,
        attributes: &AttributeStore<'source>,
        files: &Vec<(String, Result<String, String>)>,
    ) -> (r: Result<RequestItem, Stop>)
        requires
            self.inv(),
            unique_names(files@),
            attributes.wf(),
            attrs_in(attributes.attributes(), self.source_str().spec_bytes()),
            crate::error_meta::has_line(
                self.source_str().spec_bytes(),
                endpoint_span(*endpoint).start.line as nat,
            ),
            block matches Some(b) ==> forall|i: int|
                0 <= i < b.statements@.len() ==> statement_in(
                    #[trigger] b.statements@[i],
                    self.source_str().spec_bytes(),
                ),
        ensures
            match request_view_eval(
                method,
                *endpoint,
                *block,
                span,
                self.state_of(*attributes, Seq::empty()),
                self.environment(),
                files@,
            ) {
                Ok(v) => (r matches Ok(item) && view_of(item) == v),
                Err(o) => stopped_as(r, o, self.source_str()),
            },
    {
        let full_span = span.to_end_of(endpoint.span());
        let path = self.evaluate_request_endpoint(endpoint)?;
        let (headers, body) = self.evaluate_block(block, files)?;
        let name_of_request = match attributes.get("name") {
            Some(att) => match att.first_params() {
                None => {
                    return Err(
                        Stop::Error(
                            self.error_factory.required_args(
                                Span::new(att.location, att.location),
                                1,
                                0,
                            ).with_message(
                                "@name(..) must be given an argument, like @name(\"req_1\")",
                            ),
                        ),
                    );
                },
                Some(exp) => Some(self.evaluate_expression(exp, files)?),
            },
            None => None,
        };
        let log_destination = match attributes.get("log") {
            Some(att) => match att.first_params() {
                Some(arg) => Some(LogDestination::File(self.evaluate_expression(arg, files)?)),
                None => Some(LogDestination::Std),
            },
            None => None,
        };
        let dbg = attributes.has("dbg");
        let item = RequestItem {
            name: name_of_request,
            dbg,
            log_destination,
            span: full_span,
            request: Request { method, url: path, headers, body },
        };
        proof {
            assert(view_of(item).headers =~= headers@.map_values(|x: Header| header_view(x)));
        }
        Ok(item)
    }

    proof fn lemma_lets_after_set(&self, before: Interpreter<'source>, k: Seq<char>, v: Seq<char>)
        requires
            unique_names(before.let_bindings@),
            unique_names(self.let_bindings@),
            lookup(self.let_bindings@, k) == Some(v),
            forall|k2: Seq<char>| k2 != k ==> lookup(self.let_bindings@, k2) == lookup(before.let_bindings@, k2),
        ensures
            self.lets() =~= before.lets().insert(k, v),
    {
        let m = self.lets();
        let n = before.lets().insert(k, v);
        assert forall|k2: Seq<char>| #[trigger] m.contains_key(k2) == n.contains_key(k2) by {
            lemma_index_of_range(self.let_bindings@, k2);
            lemma_index_of_range(before.let_bindings@, k2);
            if k2 == k {
                assert(index_of(self.let_bindings@, k) >= 0);
                assert(m.contains_key(k));
            } else {
                assert(lookup(self.let_bindings@, k2) == lookup(before.let_bindings@, k2));
                assert(m.contains_key(k2) == (index_of(self.let_bindings@, k2) >= 0));
                assert(before.lets().contains_key(k2) == (index_of(before.let_bindings@, k2) >= 0));
            }
        }
        assert forall|k2: Seq<char>| m.contains_key(k2) implies #[trigger] m[k2] == n[k2] by {
            lemma_index_of_range(self.let_bindings@, k2);
            lemma_index_of_range(before.let_bindings@, k2);
            if k2 == k {
                assert(lookup(self.let_bindings@, k) == Some(v));
            } else {
                assert(lookup(self.let_bindings@, k2) == lookup(before.let_bindings@, k2));
            }
        }
    }

    /// Evaluates one item: a request is added to `requests` with the attributes
    /// given to it, which are then dropped; `set`, `let` and attributes change what
    /// the next items see.
    fn evaluate_item(
        &mut self,
        item: Item<'source>,
        attributes: &mut AttributeStore<'source>,
        requests: &mut Vec<RequestItem>,
        files: &Vec<(String, Result<String, String>)>,
    ) -> (r: Result<(), Stop>)
        requires
            old(self).inv(),
            unique_names(files@),
            item_in(item, old(self).source_str().spec_bytes()),
            old(attributes).wf(),
            attrs_in(old(attributes).attributes(), old(self).source_str().spec_bytes()),
        ensures
            final(self).inv(),
            final(self).source_str() == old(self).source_str(),
            final(self).environment() == old(self).environment(),
            final(attributes).wf(),
            attrs_in(final(attributes).attributes(), old(self).source_str().spec_bytes()),
            match item_eval(
                item,
                old(self).state_of(*old(attributes), old(requests)@),
                old(self).environment(),
                files@,
            ) {
                Ok(st) => r is Ok && final(self).state_matches(*final(attributes), final(requests)@, st),
                Err(o) => stopped_as(r, o, old(self).source_str()) && final(self).state_matches(
                    *final(attributes),
                    final(requests)@,
                    old(self).state_of(*old(attributes), old(requests)@),
                ),
            },
    {
        proof {
            reveal(item_eval);
        }
        match item {
            Item::Request { method, endpoint, block, span } => {
                if attributes.get("skip").is_some() {
                    attributes.clear();
                    return Ok(());
                }
                let r = self.evaluate_request(method, &endpoint, &block, span, attributes, files)?;
                let ghost before = requests@;
                requests.push(r);
                attributes.clear();
                proof {
                    assert(requests@.map_values(|q: RequestItem| view_of(q)) =~= before.map_values(
                        |q: RequestItem| view_of(q),
                    ).push(view_of(r)));
                }
                Ok(())
            },
            Item::SetConstant { identifier, value } => {
                if !str_eq(identifier.name, "BASE_URL") {
                    return Err(Stop::Error(self.error_factory.unknown_constant(&identifier)));
                }
                let v = self.evaluate_expression(&value, files)?;
                self.base_url = Some(v);
                Ok(())
            },
            Item::LineComment(_) => Ok(()),
            Item::Attribute { identifier, parameters, .. } => {
                let name = identifier.name;
                if str_eq(name, "name") || str_eq(name, "log") || str_eq(name, "dbg") || str_eq(
                    name,
                    "skip",
                ) {
                    if attributes.has(name) {
                        return Err(Stop::Error(self.error_factory.duplicate_attribute(&identifier)));
                    }
                    let ghost before = attributes.attributes();
                    attributes.add(identifier, parameters);
                    proof {
                        let after = attributes.attributes();
                        let src = self.source_str().spec_bytes();
                        assert forall|i: int| 0 <= i < after.len() implies {
                            &&& crate::error_meta::has_line(src, (#[trigger] after[i]).location.line as nat)
                            &&& forall|j: int| 0 <= j < after[i].params@.len() ==> expr_in(#[trigger] after[i].params@[j], src)
                        } by {
                            if i < before.len() {
                                assert(after[i] == before[i]);
                            }
                        }
                    }
                    Ok(())
                } else {
                    Err(
                        Stop::Error(
                            self.error_factory.unsupported_attribute(&identifier).with_message(
                                "@name, @log, @skip and @dbg are the only supported attributes",
                            ),
                        ),
                    )
                }
            },
            Item::Let { identifier, value } => {
                let v = self.evaluate_expression(&value, files)?;
                let ghost before = *self;
                let ghost vv = v@;
                set_name(&mut self.let_bindings, identifier.name.to_string(), v);
                proof {
                    self.lemma_lets_after_set(before, identifier.name@, vv);
                }
                Ok(())
            },
            Item::Expr(_) => Ok(()),
        }
    }

    /// Evaluates the items of a program, in order, from no base url and no
    /// bindings: the requests it describes, or the first error, or a file to read.
    #[verifier::rlimit(50)]
    pub fn evaluate_program(
        &mut self,
        program: Program<'source>,
        files: &Vec<(String, Result<String, String>)>,
    ) -> (r: Result<Vec<RequestItem>, Halt>)
        requires
            old(self).inv(),
            unique_names(files@),
            forall|j: int|
                0 <= j < program.items@.len() ==> item_in(
                    #[trigger] program.items@[j],
                    old(self).source_str().spec_bytes(),
                ),
        ensures
            final(self).inv(),
            final(self).source_str() == old(self).source_str(),
            final(self).environment() == old(self).environment(),
            program_gives(r, program.items@, old(self).environment(), files@, old(self).source_str()),
            match items_run(program.items@, program.items@.len(), old(self).environment(), files@) {
                Ok((st, _)) => final(self).lets() =~= st.lets && final(self).base_url() == st.base_url,
                Err(_) => true,
            },
    {
        self.base_url = None;
        self.let_bindings = Vec::new();
        let mut attributes = AttributeStore::new();
        let mut requests: Vec<RequestItem> = Vec::new();
        let mut errors: Vec<ContextualError<InterpError>> = Vec::new();
        let mut items = program.items;
        let ghost all = items@;
        let ghost env = self.environment();
        let ghost code = self.source_str();
        let ghost mut i: int = 0;
        proof {
            assert(self.lets() =~= Map::<Seq<char>, Seq<char>>::empty());
            assert(items@ =~= all.subrange(0, all.len() as int));
            assert(requests@.map_values(|q: RequestItem| view_of(q)) =~= Seq::<RequestView>::empty());
            assert(self.state_of(attributes, requests@) =~= initial_state());
        }
        while items.len() > 0
            invariant
                self.inv(),
                unique_names(files@),
                self.source_str() == code,
                self.environment() == env,
                code == old(self).source_str(),
                env == old(self).environment(),
                all == program.items@,
                0 <= i <= all.len(),
                items@ =~= all.subrange(i, all.len() as int),
                forall|j: int| 0 <= j < all.len() ==> item_in(#[trigger] all[j], code.spec_bytes()),
                attributes.wf(),
                attrs_in(attributes.attributes(), code.spec_bytes()),
                items_run(all, i as nat, env, files@) matches Ok((st, faults)) && st == self.state_of(
                    attributes,
                    requests@,
                ) && faults_are(errors@, faults, code),
            decreases items@.len(),
        {
            let item = items.remove(0);
            proof {
                assert(item == all[i]);
                assert(all.subrange(0, i + 1).len() == i + 1);
            }
            match self.evaluate_item(item, &mut attributes, &mut requests, files) {
                Ok(()) => {},
                Err(Stop::Error(e)) => {
                    errors.push(e);
                },
                Err(Stop::ReadFile(p)) => {
                    proof {
                        lemma_items_stop(all, (i + 1) as nat, all.len(), env, files@);
                    }
                    return Err(Halt::ReadFile(p));
                },
            }
            proof {
                let st2 = items_run(all, (i + 1) as nat, env, files@)->Ok_0.0;
                self.lemma_state_of(attributes, requests@, st2);
                i = i + 1;
            }
        }
        proof {
            assert(all.len() == i);
        }
        if errors.len() > 0 {
            return Err(Halt::Errors(errors));
        }
        Ok(requests)
    }

    /// Parses the source text and evaluates the program. When parsing fails, the
    /// result is every parse error; otherwise what the program gives.
    pub fn evaluate(&mut self, files: &Vec<(String, Result<String, String>)>) -> (r: Result<
        Vec<RequestItem>,
        Halt,
    >)
        requires
            old(self).inv(),
            unique_names(files@),
        ensures
            final(self).inv(),
            final(self).source_str() == old(self).source_str(),
            final(self).environment() == old(self).environment(),
            interpretation_of(r, old(self).source_str(), old(self).environment(), files@),
    {
        let mut parser = Parser::new(self.code);
        let ghost p0 = parser;
        proof {
            assert(p0.source() == self.source_str().spec_bytes());
            assert(p0.pos() == -1);
        }
        let parsed = parser.parse();
        match parsed {
            Ok(program) => {
                let ghost items = program.items@;
                proof {
                    assert(forall|j: int|
                        0 <= j < items.len() ==> item_in(#[trigger] items[j], p0.source()));
                }
                let r = self.evaluate_program(program, files);
                proof {
                    let src = old(self).source_str().spec_bytes();
                    let outcome = program_spec(step_kinds(src), 0);
                    assert(outcome.1.len() == 0);
                    assert(items.len() == outcome.0.len());
                    assert(forall|j: int|
                        0 <= j < items.len() ==> item_kind_is(
                            #[trigger] items[j],
                            kat(step_kinds(src), outcome.0[j]),
                        ));
                    assert(forall|j: int|
                        0 <= j < items.len() ==> item_text_is(
                            #[trigger] items[j],
                            src,
                            outcome.0[j],
                        ));
                    assert(program_gives(
                        r,
                        items,
                        old(self).environment(),
                        files@,
                        old(self).source_str(),
                    ));
                }
                r
            },
            Err(errors) => {
                let ghost code = self.code;
                let ghost src = code.spec_bytes();
                let ghost xs = program_spec(step_kinds(src), 0).1;
                let mut errs = errors.errors;
                let ghost all = errs@;
                let mut out: Vec<ContextualError<InterpError>> = Vec::new();
                let ghost mut j: int = 0;
                proof {
                    assert(errs@ =~= all.subrange(0, all.len() as int));
                }
                while errs.len() > 0
                    invariant
                        code == self.code,
                        src == code.spec_bytes(),
                        all.len() == xs.len(),
                        forall|k: int|
                            0 <= k < xs.len() ==> reported_at(#[trigger] all[k], xs[k], src, code),
                        0 <= j <= all.len(),
                        errs@ =~= all.subrange(j, all.len() as int),
                        out@.len() == j,
                        forall|k: int| 0 <= k < j ==> parse_error_reported(#[trigger] out@[k], xs[k], src, code),
                    decreases errs@.len(),
                {
                    let first = errs.remove(0);
                    proof {
                        assert(first == all[j]);
                        assert(reported_at(all[j], xs[j], src, code));
                    }
                    let e = first.into_interp_error();
                    proof {
                        let x = xs[j];
                        let t = choose|t: Token| is_token_at(src, x.at, t) && #[trigger] reports(
                            first,
                            x,
                            code,
                            t,
                        );
                        assert(e.span == token_span(t));
                        assert(opt_view(e.message) == x.message);
                        assert(context_is(e.context, code, t.start.line as nat));
                        assert(parse_error_reported(e, x, src, code));
                    }
                    out.push(e);
                    proof {
                        j = j + 1;
                    }
                }
                Err(Halt::Errors(out))
            },
        }
    }
}

} // verus!
