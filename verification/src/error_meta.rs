//! Errors that point into the source text: the line of the error with the lines
//! around it, a squiggle under the offending text and a message.
use vstd::prelude::*;
use vstd::string::*;
use vstd::utf8::*;

use crate::lexer::{lemma_scan, scan, ByteClass, NL};
use crate::locations::{spec_width, Location, Span};
use crate::text::{
    decimal, lemma_boundary_after_ascii, lemma_boundary_at_ascii, lemma_str_ends, repeat,
    repeat_str, substr, usize_to_string,
};

verus! {

pub const CR: u8 = 13;

/// The byte offset where line `n` of a text starts. Line `n + 1` starts right
/// after the line feed that ends line `n`.
pub open spec fn line_start(b: Seq<u8>, n: nat) -> int
    decreases n,
{
    if n == 0 {
        0
    } else {
        scan(b, line_start(b, (n - 1) as nat), ByteClass::NotNewline) + 1
    }
}

/// The text has a line `n`: some byte of the text starts it. A text that ends
/// with a line feed has no empty last line after it.
pub open spec fn has_line(b: Seq<u8>, n: nat) -> bool {
    line_start(b, n) < b.len()
}

/// The bytes of line `n`, without the line feed that ends it, and without a
/// carriage return right before that line feed.
pub open spec fn line_bytes(b: Seq<u8>, n: nat) -> Seq<u8> {
    let s = line_start(b, n);
    let e = scan(b, s, ByteClass::NotNewline);
    if e < b.len() && e > s && b[e - 1] == CR {
        b.subrange(s, e - 1)
    } else {
        b.subrange(s, e)
    }
}

/// The characters of line `n` of a text.
pub open spec fn line_chars(code: &str, n: nat) -> Seq<char> {
    decode_utf8(line_bytes(code.spec_bytes(), n))
}

pub proof fn lemma_line_start_grows(b: Seq<u8>, n: nat)
    ensures
        0 <= line_start(b, n),
        line_start(b, n) < line_start(b, n + 1),
        line_start(b, n) <= b.len() ==> line_start(b, n + 1) <= b.len() + 1,
    decreases n,
{
    if n > 0 {
        lemma_line_start_grows(b, (n - 1) as nat);
    }
    lemma_scan(b, line_start(b, n), ByteClass::NotNewline);
}

/// Lines come one after the other: if line `m` exists, so does every line before it.
pub proof fn lemma_earlier_lines_exist(b: Seq<u8>, n: nat, m: nat)
    requires
        n <= m,
        has_line(b, m),
    ensures
        has_line(b, n),
    decreases m - n,
{
    if n < m {
        lemma_line_start_grows(b, (m - 1) as nat);
        lemma_earlier_lines_exist(b, n, (m - 1) as nat);
    }
}

/// Line `n` of `code`, if the text has that many lines.
pub fn nth_line<'a>(code: &'a str, n: usize) -> (r: Option<&'a str>)
    ensures
        r is Some <==> has_line(code.spec_bytes(), n as nat),
        r matches Some(line) ==> line.spec_bytes() == line_bytes(code.spec_bytes(), n as nat),
{
    let bytes = code.as_bytes();
    let ghost b = bytes@;
    proof {
        lemma_str_ends(code);
    }
    let mut pos: usize = 0;
    let mut k: usize = 0;
    while k < n
        invariant
            bytes@ == b,
            b == code.spec_bytes(),
            valid_utf8(b),
            k <= n,
            pos as int == line_start(b, k as nat),
            pos <= b.len(),
            pos == 0 || b[pos - 1] == NL,
        decreases n - k,
    {
        proof {
            lemma_line_start_grows(b, k as nat);
        }
        if pos >= bytes.len() {
            proof {
                assert(!has_line(b, k as nat));
                if has_line(b, n as nat) {
                    lemma_earlier_lines_exist(b, k as nat, n as nat);
                }
            }
            return None;
        }
        let e = find_newline(bytes, pos);
        proof {
            lemma_scan(b, pos as int, ByteClass::NotNewline);
        }
        if e >= bytes.len() {
            proof {
                assert(line_start(b, (k + 1) as nat) == b.len() + 1);
                if has_line(b, n as nat) {
                    lemma_earlier_lines_exist(b, (k + 1) as nat, n as nat);
                }
            }
            return None;
        }
        pos = e + 1;
        k = k + 1;
    }
    if pos >= bytes.len() {
        return None;
    }
    let e = find_newline(bytes, pos);
    proof {
        lemma_scan(b, pos as int, ByteClass::NotNewline);
        is_char_boundary_start_end_of_seq(b);
        if pos > 0 {
            lemma_boundary_after_ascii(b, pos - 1);
        }
        if e < b.len() {
            lemma_boundary_at_ascii(b, e as int);
        }
    }
    if e < bytes.len() && e > pos && bytes[e - 1] == CR {
        proof {
            lemma_boundary_at_ascii(b, e - 1);
        }
        return Some(substr(code, pos, e - 1));
    }
    Some(substr(code, pos, e))
}

/// The offset of the first line feed from `from` on, or the length of the text.
fn find_newline(bytes: &[u8], from: usize) -> (r: usize)
    requires
        from <= bytes@.len(),
    ensures
        r == scan(bytes@, from as int, ByteClass::NotNewline),
        r <= bytes@.len(),
{
    proof {
        lemma_scan(bytes@, from as int, ByteClass::NotNewline);
    }
    let mut i = from;
    while i < bytes.len() && bytes[i] != NL
        invariant
            from <= i <= bytes@.len(),
            scan(bytes@, i as int, ByteClass::NotNewline) == scan(bytes@, from as int, ByteClass::NotNewline),
        decreases bytes@.len() - i,
    {
        i = i + 1;
    }
    i
}

/// `ctx` holds line `n` of `code` with the lines right above and below it, where
/// there are such lines.
pub open spec fn context_is(ctx: ErrorSourceContext, code: &str, n: nat) -> bool {
    &&& ctx.line@ == line_chars(code, n)
    &&& n == 0 ==> ctx.above is None
    &&& n > 0 ==> (ctx.above matches Some(a) && a@ == line_chars(code, (n - 1) as nat))
    &&& has_line(code.spec_bytes(), n + 1) ==> (ctx.below matches Some(b) && b@ == line_chars(
        code,
        n + 1,
    ))
    &&& !has_line(code.spec_bytes(), n + 1) ==> ctx.below is None
}

/// The line of a location in the source text, with the lines right above and below it.
#[derive(Debug, Clone)]
pub struct ErrorSourceContext {
    pub above: Option<String>,
    pub line: String,
    pub below: Option<String>,
}

impl ErrorSourceContext {
    pub fn new(location: &Location, code: &str) -> (r: ErrorSourceContext)
        requires
            has_line(code.spec_bytes(), location.line as nat),
            code.spec_bytes().len() <= usize::MAX,
        ensures
            context_is(r, code, location.line as nat),
    {
        let line_of_token = location.line;
        let above = if line_of_token == 0 {
            None
        } else {
            proof {
                lemma_earlier_lines_exist(code.spec_bytes(), (line_of_token - 1) as nat, line_of_token as nat);
            }
            match nth_line(code, line_of_token - 1) {
                Some(l) => Some(owned_line(l)),
                None => None,
            }
        };
        let line = match nth_line(code, line_of_token) {
            Some(l) => owned_line(l),
            None => String::new(),
        };
        let below = if line_of_token < usize::MAX {
            match nth_line(code, line_of_token + 1) {
                Some(l) => Some(owned_line(l)),
                None => None,
            }
        } else {
            None
        };
        proof {
            if line_of_token == usize::MAX {
                lemma_line_count_bound(code.spec_bytes(), line_of_token as nat);
            }
        }
        ErrorSourceContext { above, line, below }
    }
}

/// A text has fewer lines than bytes.
pub proof fn lemma_line_count_bound(b: Seq<u8>, n: nat)
    ensures
        line_start(b, n) >= n,
    decreases n,
{
    if n > 0 {
        lemma_line_count_bound(b, (n - 1) as nat);
        lemma_line_start_grows(b, (n - 1) as nat);
    }
}

fn owned_line(l: &str) -> (r: String)
    ensures
        r@ == decode_utf8(l.spec_bytes()),
{
    proof {
        encode_utf8_decode_utf8(l@);
    }
    String::from_str(l)
}

} // verus!

verus! {

/// Errors that can be told in words.
pub trait ErrorKind {
    spec fn spec_describe(&self) -> Seq<char>;

    fn describe(&self) -> (r: String)
        ensures
            r@ == self.spec_describe(),
    ;
}

/// How a location is shown to a reader: `[line:column]`, both counted from one.
pub open spec fn location_text(l: Location) -> Seq<char> {
    "["@ + decimal((l.line + 1) as nat) + ":"@ + decimal((l.col + 1) as nat) + "]"@
}

/// A line of text followed by a line feed, when there is a line.
pub open spec fn optional_line(l: Option<Seq<char>>) -> Seq<char> {
    match l {
        Some(t) => t + "\n"@,
        None => Seq::empty(),
    }
}

pub open spec fn spaces(n: nat) -> Seq<char> {
    repeat(" "@, n)
}

/// The text of an error pointing into its source: the line above, the line of the
/// error, a squiggle under the error, an arrow with the location and the error,
/// the message under it, and the line below.
pub open spec fn error_layout(
    above: Option<Seq<char>>,
    line: Seq<char>,
    col: nat,
    squiggle: Seq<char>,
    location: Seq<char>,
    error: Seq<char>,
    message: Option<Seq<char>>,
    below: Option<Seq<char>>,
) -> Seq<char> {
    optional_line(above) + line + "\n"@ + spaces(col) + squiggle + "\n"@ + spaces(col) + "\u{21B3} "@
        + location + " "@ + error + "\n"@ + match message {
        Some(m) => spaces(col + location.len()) + "   "@ + m + "\n"@,
        None => Seq::empty(),
    } + optional_line(below)
}

pub open spec fn opt_view(o: Option<String>) -> Option<Seq<char>> {
    match o {
        Some(s) => Some(s@),
        None => None,
    }
}

/// Things that are shown as an error pointing into the source text.
pub trait ErrorDisplay {
    spec fn spec_formatted_error(&self) -> Seq<char>;

    spec fn spec_location(&self) -> Seq<char>;

    spec fn spec_line(&self) -> Seq<char>;

    spec fn spec_line_above(&self) -> Option<Seq<char>>;

    spec fn spec_line_below(&self) -> Option<Seq<char>>;

    spec fn spec_error_start(&self) -> Location;

    spec fn spec_squiggle(&self) -> Seq<char>;

    spec fn spec_message(&self) -> Option<Seq<char>>;

    /// The parts can be computed without overflow.
    spec fn displayable(&self) -> bool;

    fn formatted_error(&self) -> (r: String)
        ensures
            r@ == self.spec_formatted_error(),
    ;

    fn location(&self) -> (r: String)
        requires
            self.displayable(),
        ensures
            r@ == self.spec_location(),
    ;

    fn line(&self) -> (r: String)
        ensures
            r@ == self.spec_line(),
    ;

    fn line_above(&self) -> (r: Option<String>)
        ensures
            opt_view(r) == self.spec_line_above(),
    ;

    fn line_below(&self) -> (r: Option<String>)
        ensures
            opt_view(r) == self.spec_line_below(),
    ;

    fn error_start(&self) -> (r: Location)
        ensures
            r == self.spec_error_start(),
    ;

    fn squiggle(&self) -> (r: String)
        ensures
            r@ == self.spec_squiggle(),
    ;

    fn message(&self) -> (r: Option<String>)
        ensures
            opt_view(r) == self.spec_message(),
    ;

    /// The whole text of the error.
    fn format(&self) -> (r: String)
        requires
            self.displayable(),
            self.spec_error_start().col + self.spec_location().len() <= usize::MAX,
        ensures
            r@ == error_layout(
                self.spec_line_above(),
                self.spec_line(),
                self.spec_error_start().col as nat,
                self.spec_squiggle(),
                self.spec_location(),
                self.spec_formatted_error(),
                self.spec_message(),
                self.spec_line_below(),
            ),
    {
        let formatted_error = self.formatted_error();
        let location = self.location();
        let mut f = String::new();
        let above = self.line_above();
        match &above {
            Some(line) => {
                f.append(line.as_str());
                f.append("\n");
            },
            None => {},
        }
        let line = self.line();
        f.append(line.as_str());
        f.append("\n");
        let error_start = self.error_start();
        let indent_to_error_location = repeat_str(" ", error_start.col);
        let squiggle = self.squiggle();
        f.append(indent_to_error_location.as_str());
        f.append(squiggle.as_str());
        f.append("\n");
        f.append(indent_to_error_location.as_str());
        f.append("\u{21B3} ");
        f.append(location.as_str());
        f.append(" ");
        f.append(formatted_error.as_str());
        f.append("\n");
        let message = self.message();
        let ghost before_message = f@;
        match &message {
            Some(m) => {
                let pad = repeat_str(" ", error_start.col + location.unicode_len());
                f.append(pad.as_str());
                f.append("   ");
                f.append(m.as_str());
                f.append("\n");
            },
            None => {},
        }
        let below = self.line_below();
        match &below {
            Some(line) => {
                f.append(line.as_str());
                f.append("\n");
            },
            None => {},
        }
        proof {
            let lay = error_layout(
                self.spec_line_above(),
                self.spec_line(),
                self.spec_error_start().col as nat,
                self.spec_squiggle(),
                self.spec_location(),
                self.spec_formatted_error(),
                self.spec_message(),
                self.spec_line_below(),
            );
            assert(f@ =~= lay);
        }
        f
    }
}

/// The text shown for a location: `[line:column]`, both counted from one.
pub fn location_string(l: Location) -> (r: String)
    requires
        l.line < usize::MAX,
        l.col < usize::MAX,
    ensures
        r@ == location_text(l),
{
    let mut s = String::from_str("[");
    let line = usize_to_string(l.line + 1);
    s.append(line.as_str());
    s.append(":");
    let col = usize_to_string(l.col + 1);
    s.append(col.as_str());
    s.append("]");
    s
}

fn clone_optional(o: &Option<String>) -> (r: Option<String>)
    ensures
        opt_view(r) == opt_view(*o),
{
    match o {
        Some(s) => Some(s.clone()),
        None => None,
    }
}

/// An error together with where it is in the source text and how that text reads.
#[derive(Debug)]
pub struct ContextualError<EK> {
    pub inner_error: EK,
    pub span: Span,
    pub message: Option<String>,
    pub context: ErrorSourceContext,
}

impl<E> ContextualError<E> {
    pub fn new(inner_error: E, span: Span, source_code: &str) -> (r: ContextualError<E>)
        requires
            has_line(source_code.spec_bytes(), span.start.line as nat),
            source_code.spec_bytes().len() <= usize::MAX,
        ensures
            r.inner_error == inner_error,
            r.span == span,
            r.message is None,
            context_is(r.context, source_code, span.start.line as nat),
    {
        Self {
            inner_error,
            message: None,
            context: ErrorSourceContext::new(&span.start, source_code),
            span,
        }
    }

    /// The same error with a message telling more about it.
    pub fn with_message(self, msg: &str) -> (r: ContextualError<E>)
        ensures
            r.inner_error == self.inner_error,
            r.span == self.span,
            r.context == self.context,
            r.message matches Some(m) && m@ == msg@,
    {
        let mut s = self;
        s.message = Some(msg.to_owned());
        s
    }
}

impl<E: ErrorKind> ErrorDisplay for ContextualError<E> {
    open spec fn spec_formatted_error(&self) -> Seq<char> {
        self.inner_error.spec_describe()
    }

    open spec fn spec_location(&self) -> Seq<char> {
        location_text(self.span.start)
    }

    open spec fn spec_line(&self) -> Seq<char> {
        self.context.line@
    }

    open spec fn spec_line_above(&self) -> Option<Seq<char>> {
        opt_view(self.context.above)
    }

    open spec fn spec_line_below(&self) -> Option<Seq<char>> {
        opt_view(self.context.below)
    }

    open spec fn spec_error_start(&self) -> Location {
        self.span.start
    }

    open spec fn spec_squiggle(&self) -> Seq<char> {
        repeat("\u{2248}"@, spec_width(self.span))
    }

    open spec fn spec_message(&self) -> Option<Seq<char>> {
        opt_view(self.message)
    }

    open spec fn displayable(&self) -> bool {
        self.span.start.line < usize::MAX && self.span.start.col < usize::MAX
    }

    fn formatted_error(&self) -> (r: String) {
        self.inner_error.describe()
    }

    fn location(&self) -> (r: String) {
        location_string(self.span.start)
    }

    fn line(&self) -> (r: String) {
        self.context.line.clone()
    }

    fn squiggle(&self) -> (r: String) {
        repeat_str("\u{2248}", self.span.width())
    }

    fn message(&self) -> (r: Option<String>) {
        clone_optional(&self.message)
    }

    fn line_above(&self) -> (r: Option<String>) {
        clone_optional(&self.context.above)
    }

    fn line_below(&self) -> (r: Option<String>) {
        clone_optional(&self.context.below)
    }

    fn error_start(&self) -> (r: Location) {
        self.span.start
    }
}

} // verus!

verus! {

proof fn lemma_cursor_line(b: Seq<u8>, v: nat)
    requires
        v < b.len(),
    ensures
        line_start(b, crate::lexer::cursor(b, v).0) <= v,
        forall|k: int| line_start(b, crate::lexer::cursor(b, v).0) <= k < v ==> b[k] != NL,
    decreases v,
{
    if v > 0 {
        let u = (v - 1) as nat;
        lemma_cursor_line(b, u);
        let l = crate::lexer::cursor(b, u).0;
        let s = line_start(b, l);
        if b[u as int] == NL {
            lemma_line_start_grows(b, l);
            lemma_scan(b, s, ByteClass::NotNewline);
            let sc = scan(b, s, ByteClass::NotNewline);
            if sc < u {
                assert(b[sc] != NL);
            }
            assert(sc == u);
            assert(line_start(b, l + 1) == v);
        }
    }
}

proof fn lemma_cursor_settles(b: Seq<u8>, v: nat)
    requires
        b.len() > 0,
        v >= b.len() - 1,
    ensures
        crate::lexer::cursor(b, v) == crate::lexer::cursor(b, (b.len() - 1) as nat),
    decreases v,
{
    if v > b.len() - 1 {
        lemma_cursor_settles(b, (v - 1) as nat);
    }
}

/// Every position the lexer reaches in a text that is not empty lies on a line of
/// that text, so an error there can show its line.
pub proof fn lemma_cursor_line_exists(b: Seq<u8>, v: nat)
    requires
        b.len() > 0,
    ensures
        has_line(b, crate::lexer::cursor(b, v).0),
{
    if v < b.len() {
        lemma_cursor_line(b, v);
    } else {
        lemma_cursor_settles(b, v);
        lemma_cursor_line(b, (b.len() - 1) as nat);
    }
}


/// The whole text of an error, when its place can be written out: `None` only
/// for places near the largest machine integer.
pub fn error_text<E: ErrorKind>(e: &ContextualError<E>) -> (r: Option<String>)
    ensures
        r matches Some(t) ==> t@ == error_layout(
            e.spec_line_above(),
            e.spec_line(),
            e.spec_error_start().col as nat,
            e.spec_squiggle(),
            e.spec_location(),
            e.spec_formatted_error(),
            e.spec_message(),
            e.spec_line_below(),
        ),
        e.span.start.line < usize::MAX && e.span.start.col + location_text(e.span.start).len()
            <= usize::MAX ==> r is Some,
{
    if e.span.start.line == usize::MAX || e.span.start.col == usize::MAX {
        return None;
    }
    let location = location_string(e.span.start);
    if e.span.start.col > usize::MAX - location.unicode_len() {
        return None;
    }
    Some(e.format())
}

} // verus!
