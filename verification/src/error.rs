//! Errors that point at a location of the source text.
use vstd::prelude::*;
use vstd::string::*;

use crate::error_meta::{context_is, has_line, opt_view, ErrorKind, ErrorSourceContext, spaces};
use crate::locations::Location;
use crate::text::{decimal, repeat_str, usize_to_string};

verus! {

/// An error with where it is in the source text and how the lines around it read.
#[derive(Debug)]
pub struct Error<EK> {
    pub inner_error: EK,
    pub location: Location,
    pub message: Option<String>,
    pub context: ErrorSourceContext,
}

/// How a location is written: line and column, both counted from one.
pub open spec fn at_text(l: Location) -> Seq<char> {
    decimal((l.line + 1) as nat) + ":"@ + decimal((l.col + 1) as nat)
}

/// The text of an error: the line above, the line of the error, an arrow under
/// the error with its location and what it says, the message, the line below.
pub open spec fn error_lines(
    above: Option<Seq<char>>,
    line: Seq<char>,
    col: nat,
    at: Seq<char>,
    error: Seq<char>,
    message: Option<Seq<char>>,
    below: Option<Seq<char>>,
) -> Seq<char> {
    let first = match above {
        Some(a) => a + "\n"@,
        None => Seq::empty(),
    };
    let arrow = spaces(col) + "\u{21B3} at "@ + at + " "@ + error;
    let told = match message {
        Some(m) => arrow + "\n"@ + spaces(col) + "   "@ + m + "\n"@,
        None => arrow + "\n"@,
    };
    let last = match below {
        Some(b) => b + "\n"@,
        None => Seq::empty(),
    };
    first + line + "\n"@ + told + last
}

impl<EK> Error<EK> {
    pub fn new(inner_error: EK, location: Location, source_code: &str) -> (r: Error<EK>)
        requires
            has_line(source_code.spec_bytes(), location.line as nat),
            source_code.spec_bytes().len() <= usize::MAX,
        ensures
            r.inner_error == inner_error,
            r.location == location,
            r.message is None,
            context_is(r.context, source_code, location.line as nat),
    {
        Self {
            inner_error,
            location,
            message: None,
            context: ErrorSourceContext::new(&location, source_code),
        }
    }

    /// The same error with a message telling more about it.
    pub fn with_message(self, msg: &str) -> (r: Error<EK>)
        ensures
            r.inner_error == self.inner_error,
            r.location == self.location,
            r.context == self.context,
            r.message matches Some(m) && m@ == msg@,
    {
        let mut s = self;
        s.message = Some(msg.to_owned());
        s
    }
}

/// The location written as `line:column`.
pub fn at_string(l: Location) -> (r: String)
    requires
        l.line < usize::MAX,
        l.col < usize::MAX,
    ensures
        r@ == at_text(l),
{
    let mut s = usize_to_string(l.line + 1);
    s.append(":");
    let col = usize_to_string(l.col + 1);
    s.append(col.as_str());
    s
}

/// The arrow line of an error, and its message line.
pub open spec fn told_lines(col: nat, at: Seq<char>, error: Seq<char>, message: Option<Seq<char>>) -> Seq<char> {
    let arrow = spaces(col) + "\u{21B3} at "@ + at + " "@ + error;
    match message {
        Some(m) => arrow + "\n"@ + spaces(col) + "   "@ + m + "\n"@,
        None => arrow + "\n"@,
    }
}

fn told_string(indent: &String, at: &String, error: &String, message: &Option<String>) -> (r: String)
    ensures
        r@ == indent@ + "\u{21B3} at "@ + at@ + " "@ + error@ + match opt_view(*message) {
            Some(m) => "\n"@ + indent@ + "   "@ + m + "\n"@,
            None => "\n"@,
        },
{
    let mut f = indent.clone();
    f.append("\u{21B3} at ");
    f.append(at.as_str());
    f.append(" ");
    f.append(error.as_str());
    let ghost arrow = f@;
    match message {
        Some(m) => {
            f.append("\n");
            f.append(indent.as_str());
            f.append("   ");
            f.append(m.as_str());
            f.append("\n");
            proof {
                assert(f@ =~= arrow + ("\n"@ + indent@ + "   "@ + m@ + "\n"@));
            }
        },
        None => {
            f.append("\n");
        },
    }
    f
}

fn line_or_nothing(l: &Option<String>) -> (r: String)
    ensures
        r@ == match opt_view(*l) {
            Some(a) => a + "\n"@,
            None => Seq::<char>::empty(),
        },
{
    let mut f = String::new();
    match l {
        Some(line) => {
            f.append(line.as_str());
            f.append("\n");
        },
        None => {},
    }
    f
}

impl<EK: ErrorKind> Error<EK> {
    /// The whole text of the error.
    pub fn format(&self) -> (r: String)
        requires
            self.location.line < usize::MAX,
            self.location.col < usize::MAX,
        ensures
            r@ == error_lines(
                opt_view(self.context.above),
                self.context.line@,
                self.location.col as nat,
                at_text(self.location),
                self.inner_error.spec_describe(),
                opt_view(self.message),
                opt_view(self.context.below),
            ),
    {
        let mut f = line_or_nothing(&self.context.above);
        f.append(self.context.line.as_str());
        f.append("\n");
        let indent = repeat_str(" ", self.location.col);
        let at = at_string(self.location);
        let formatted_error = self.inner_error.describe();
        let told = told_string(&indent, &at, &formatted_error, &self.message);
        f.append(told.as_str());
        let below = line_or_nothing(&self.context.below);
        f.append(below.as_str());
        proof {
            let t = told_lines(
                self.location.col as nat,
                at_text(self.location),
                self.inner_error.spec_describe(),
                opt_view(self.message),
            );
            assert(told@ =~= t);
            assert(f@ =~= error_lines(
                opt_view(self.context.above),
                self.context.line@,
                self.location.col as nat,
                at_text(self.location),
                self.inner_error.spec_describe(),
                opt_view(self.message),
                opt_view(self.context.below),
            ));
        }
        f
    }
}

} // verus!
