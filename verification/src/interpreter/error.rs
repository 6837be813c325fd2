//! The errors of the interpreter, and how they are made.
use vstd::prelude::*;
use vstd::string::*;

use crate::error_meta::{context_is, has_line, opt_view, ContextualError, ErrorKind};
use crate::locations::Span;
use crate::parser::ast::{Identifier, Literal};
use crate::parser::error::{parse_error_text, ParseError};
use crate::text::{decimal, usize_to_string};

verus! {

/// What went wrong while evaluating a program.
#[derive(Debug, PartialEq)]
pub enum InterpError {
    UnknownConstant { constant: String },
    RequiredArguments { required: usize, recieved: usize },
    EnvVariableNotFound { name: String },
    RequestWithPathnameWithoutBaseUrl,
    UndefinedCallable { name: String },
    UndeclaredIdentifier { name: String },
    UnsupportedAttribute { name: String },
    DuplicateAttribute { name: String },
    Other { error: String },
}

/// An interpreter error as the specification sees it: its kind and what it names.
pub enum ErrorView {
    UnknownConstant(Seq<char>),
    RequiredArguments(nat, nat),
    EnvVariableNotFound(Seq<char>),
    RequestWithPathnameWithoutBaseUrl,
    UndefinedCallable(Seq<char>),
    UndeclaredIdentifier(Seq<char>),
    UnsupportedAttribute(Seq<char>),
    DuplicateAttribute(Seq<char>),
    Other(Seq<char>),
}

/// How an interpreter error reads in the specification.
pub open spec fn error_view(e: InterpError) -> ErrorView {
    match e {
        InterpError::UnknownConstant { constant } => ErrorView::UnknownConstant(constant@),
        InterpError::RequiredArguments { required, recieved } => ErrorView::RequiredArguments(
            required as nat,
            recieved as nat,
        ),
        InterpError::EnvVariableNotFound { name } => ErrorView::EnvVariableNotFound(name@),
        InterpError::RequestWithPathnameWithoutBaseUrl => ErrorView::RequestWithPathnameWithoutBaseUrl,
        InterpError::UndefinedCallable { name } => ErrorView::UndefinedCallable(name@),
        InterpError::UndeclaredIdentifier { name } => ErrorView::UndeclaredIdentifier(name@),
        InterpError::UnsupportedAttribute { name } => ErrorView::UnsupportedAttribute(name@),
        InterpError::DuplicateAttribute { name } => ErrorView::DuplicateAttribute(name@),
        InterpError::Other { error } => ErrorView::Other(error@),
    }
}

/// The text that std's `Debug` gives for a string: quoted, with special
/// characters escaped.
pub uninterp spec fn str_debug(s: Seq<char>) -> Seq<char>;

/// The text of `format!("{:?}", s)`: std's `Debug` for `str`. Nothing more than
/// that it is a function of the characters of `s` is claimed.
#[verifier::external_body]
fn debug_text(s: &str) -> (r: String)
    ensures
        r@ == str_debug(s@),
{
    format!("{:?}", s)
}

/// The words for a variable that no namespace holds, given the variable's name
/// as std's `Debug` writes it.
pub fn not_found_text(quoted_name: &str) -> (r: String)
    ensures
        r@ == "no variable found by the name "@ + quoted_name@,
{
    let mut s = String::from_str("no variable found by the name ");
    s.append(quoted_name);
    s
}

pub open spec fn interp_error_text(e: InterpError) -> Seq<char> {
    match e {
        InterpError::UnknownConstant { constant } => "trying to set an unknown constant "@
            + constant@,
        InterpError::RequiredArguments { required, recieved } => decimal(required as nat)
            + " argument(s) required, recieved "@ + decimal(recieved as nat),
        InterpError::EnvVariableNotFound { name } => "no variable found by the name "@ + str_debug(
            name@,
        ),
        InterpError::RequestWithPathnameWithoutBaseUrl => "BASE_URL needs to be set first for requests to work with just pathnames"@,
        InterpError::UndefinedCallable { name } => "attempting to calling an undefined function: "@
            + name@,
        InterpError::UndeclaredIdentifier { name } => "undeclared variable: "@ + name@,
        InterpError::UnsupportedAttribute { name } => "unsupported attribute: "@ + name@,
        InterpError::DuplicateAttribute { name } => "duplicate attribute: @"@ + name@
            + " is already set for this request"@,
        InterpError::Other { error } => error@,
    }
}

impl ErrorKind for InterpError {
    open spec fn spec_describe(&self) -> Seq<char> {
        interp_error_text(*self)
    }

    fn describe(&self) -> (r: String) {
        match self {
            InterpError::UnknownConstant { constant } => {
                let mut s = String::from_str("trying to set an unknown constant ");
                s.append(constant.as_str());
                s
            },
            InterpError::RequiredArguments { required, recieved } => {
                let mut s = usize_to_string(*required);
                s.append(" argument(s) required, recieved ");
                let r = usize_to_string(*recieved);
                s.append(r.as_str());
                s
            },
            InterpError::EnvVariableNotFound { name } => {
                let d = debug_text(name.as_str());
                not_found_text(d.as_str())
            },
            InterpError::RequestWithPathnameWithoutBaseUrl => String::from_str(
                "BASE_URL needs to be set first for requests to work with just pathnames",
            ),
            InterpError::UndefinedCallable { name } => {
                let mut s = String::from_str("attempting to calling an undefined function: ");
                s.append(name.as_str());
                s
            },
            InterpError::UndeclaredIdentifier { name } => {
                let mut s = String::from_str("undeclared variable: ");
                s.append(name.as_str());
                s
            },
            InterpError::UnsupportedAttribute { name } => {
                let mut s = String::from_str("unsupported attribute: ");
                s.append(name.as_str());
                s
            },
            InterpError::DuplicateAttribute { name } => {
                let mut s = String::from_str("duplicate attribute: @");
                s.append(name.as_str());
                s.append(" is already set for this request");
                s
            },
            InterpError::Other { error } => error.clone(),
        }
    }
}

/// Turns an error of another part of the program into an error of the interpreter.
pub trait IntoInterpError {
    fn into_interp_error(self) -> ContextualError<InterpError>;
}

impl IntoInterpError for ContextualError<ParseError> {
    /// The same error, its kind told in words.
    fn into_interp_error(self) -> (r: ContextualError<InterpError>)
        ensures
            (r.inner_error matches InterpError::Other { error } && error@ == parse_error_text(
                self.inner_error,
            )),
            r.span == self.span,
            opt_view(r.message) == opt_view(self.message),
            r.context == self.context,
    {
        let error = self.inner_error.describe();
        ContextualError {
            inner_error: InterpError::Other { error },
            span: self.span,
            message: self.message,
            context: self.context,
        }
    }
}

/// An error can point at `span` in `code`: its line exists.
pub open spec fn points_into(code: &str, span: Span) -> bool {
    &&& has_line(code.spec_bytes(), span.start.line as nat)
    &&& code.spec_bytes().len() <= usize::MAX
}

/// `e` stands at `span` in `code`, with no message yet.
pub open spec fn stands_at<E>(e: ContextualError<E>, code: &str, span: Span) -> bool {
    &&& e.span == span
    &&& e.message is None
    &&& context_is(e.context, code, span.start.line as nat)
}

/// Makes the errors of the interpreter for one source text.
pub struct InterpErrorFactory<'i> {
    source_code: &'i str,
}

impl<'i> InterpErrorFactory<'i> {
    pub closed spec fn source(&self) -> &'i str {
        self.source_code
    }

    pub fn new(source: &'i str) -> (r: InterpErrorFactory<'i>)
        ensures
            r.source() == source,
    {
        Self { source_code: source }
    }

    /// `set` names a constant other than `BASE_URL`.
    pub fn unknown_constant(&self, token: &Identifier) -> (r: ContextualError<InterpError>)
        requires
            points_into(self.source(), token.span),
        ensures
            stands_at(r, self.source(), token.span),
            (r.inner_error matches InterpError::UnknownConstant { constant } && constant@
                == token.name@),
    {
        ContextualError::new(
            InterpError::UnknownConstant { constant: token.name.to_string() },
            token.span,
            self.source_code,
        )
    }

    /// No variable of the environment has the name `token.value`.
    pub fn env_variable_not_found(&self, token: &Literal) -> (r: ContextualError<InterpError>)
        requires
            points_into(self.source(), token.span),
        ensures
            stands_at(r, self.source(), token.span),
            (r.inner_error matches InterpError::EnvVariableNotFound { name } && name@
                == token.value@),
    {
        ContextualError::new(
            InterpError::EnvVariableNotFound { name: token.value.to_string() },
            token.span,
            self.source_code,
        )
    }

    /// A call got fewer arguments than it needs.
    pub fn required_args(&self, at: Span, required: usize, recieved: usize) -> (r: ContextualError<
        InterpError,
    >)
        requires
            points_into(self.source(), at),
        ensures
            stands_at(r, self.source(), at),
            r.inner_error == (InterpError::RequiredArguments { required, recieved }),
    {
        ContextualError::new(InterpError::RequiredArguments { required, recieved }, at, self.source_code)
    }

    /// A name that no `let` declared.
    pub fn undeclared_identifier(&self, token: &Identifier) -> (r: ContextualError<InterpError>)
        requires
            points_into(self.source(), token.span),
        ensures
            stands_at(r, self.source(), token.span),
            (r.inner_error matches InterpError::UndeclaredIdentifier { name } && name@
                == token.name@),
    {
        ContextualError::new(
            InterpError::UndeclaredIdentifier { name: token.name.to_string() },
            token.span,
            self.source_code,
        )
    }

    /// An attribute the interpreter does not know.
    pub fn unsupported_attribute(&self, token: &Identifier) -> (r: ContextualError<InterpError>)
        requires
            points_into(self.source(), token.span),
        ensures
            stands_at(r, self.source(), token.span),
            (r.inner_error matches InterpError::UnsupportedAttribute { name } && name@
                == token.name@),
    {
        ContextualError::new(
            InterpError::UnsupportedAttribute { name: token.name.to_string() },
            token.span,
            self.source_code,
        )
    }

    /// An attribute given twice to one request.
    pub fn duplicate_attribute(&self, token: &Identifier) -> (r: ContextualError<InterpError>)
        requires
            points_into(self.source(), token.span),
        ensures
            stands_at(r, self.source(), token.span),
            (r.inner_error matches InterpError::DuplicateAttribute { name } && name@
                == token.name@),
    {
        ContextualError::new(
            InterpError::DuplicateAttribute { name: token.name.to_string() },
            token.span,
            self.source_code,
        )
    }

    /// A call of a function the interpreter does not know.
    pub fn undefined_callable(&self, token: &Identifier) -> (r: ContextualError<InterpError>)
        requires
            points_into(self.source(), token.span),
        ensures
            stands_at(r, self.source(), token.span),
            (r.inner_error matches InterpError::UndefinedCallable { name } && name@
                == token.name@),
    {
        ContextualError::new(
            InterpError::UndefinedCallable { name: token.name.to_string() },
            token.span,
            self.source_code,
        )
    }

    /// A request to a path while no base url is set.
    pub fn unset_base_url(&self, at: Span) -> (r: ContextualError<InterpError>)
        requires
            points_into(self.source(), at),
        ensures
            stands_at(r, self.source(), at),
            r.inner_error == InterpError::RequestWithPathnameWithoutBaseUrl,
    {
        ContextualError::new(InterpError::RequestWithPathnameWithoutBaseUrl, at, self.source_code)
    }

    /// Any other error, told by `error`.
    pub fn other(&self, span: Span, error: &str) -> (r: ContextualError<InterpError>)
        requires
            points_into(self.source(), span),
        ensures
            stands_at(r, self.source(), span),
            (r.inner_error matches InterpError::Other { error: e } && e@ == error@),
    {
        ContextualError::new(InterpError::Other { error: error.to_string() }, span, self.source_code)
    }
}

} // verus!
