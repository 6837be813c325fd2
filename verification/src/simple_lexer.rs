//! The lexer of the first, smaller dialect of the language: requests with
//! `get` and `post`, headers, bodies, `set` and `let`, with no numbers, no
//! JSON-like values and no other methods. Tokens carry a line and column only.
use vstd::prelude::*;
use vstd::string::*;
use vstd::utf8::*;

use crate::lexer::{
    holds_byte, in_class, is_alpha, is_ws, kw_body, kw_get, kw_header, kw_http, kw_https, kw_let, kw_post,
    kw_set, lemma_scan, runs_to_whitespace, scan, word_then_colon_at, ByteClass, AT, BACKTICK, DOLLAR, EQUALS, HASH, BANG, LBRACE,
    LPAREN, NL, QUOTE, RBRACE, RPAREN, SLASH,
};
pub use crate::locations::Location;
use crate::text::{lemma_boundary_after_ascii, lemma_boundary_at_ascii, lemma_str_ends, range_eq, substr};

verus! {

/// Reading tokens never changes the text: along any run of `next`, the lexer
/// reads the text it was made with, which `input()` gives.
pub proof fn reading_keeps_the_input<'i>(run: Seq<Lexer<'i>>)
    requires
        forall|i: int| 0 <= i && i + 1 < run.len() ==> #[trigger] Lexer::lexed_once(run[i], run[i + 1]),
    ensures
        forall|i: int| 0 <= i < run.len() ==> (#[trigger] run[i]).source_str() == run[0].source_str(),
    decreases run.len(),
{
    if run.len() > 1 {
        let shorter = run.drop_last();
        assert forall|i: int| 0 <= i && i + 1 < shorter.len() implies #[trigger] Lexer::lexed_once(
            shorter[i],
            shorter[i + 1],
        ) by {
            assert(Lexer::lexed_once(run[i], run[i + 1]));
        }
        reading_keeps_the_input(shorter);
        let k = run.len() - 2;
        assert(Lexer::lexed_once(run[k], run[k + 1]));
        assert forall|i: int| 0 <= i < run.len() implies (#[trigger] run[i]).source_str()
            == run[0].source_str() by {
            assert(run[0] == shorter[0]);
            if i < run.len() - 1 {
                assert(run[i] == shorter[i]);
                assert(shorter[i].source_str() == shorter[0].source_str());
            } else {
                assert(run[k] == shorter[k]);
                assert(shorter[k].source_str() == shorter[0].source_str());
            }
        }
    }
}

/// A location from a line and a column.
pub fn at(line: usize, col: usize) -> (r: Location)
    ensures
        r == (Location { line, col }),
{
    Location { line, col }
}

/// The kinds of tokens of the dialect.
#[derive(Debug, PartialEq, Eq, Clone, Copy, Structural)]
pub enum TokenKind {
    // keywords
    Get,
    Post,
    Header,
    Body,
    SetKeyword,
    Let,
    Ident,
    // literals
    StringLiteral,
    MultiLineStringLiteral,
    Url,
    Pathname,
    Linecomment,
    Shebang,
    // operators
    Assign,
    // special characters
    DollarSignLBracket,
    LParen,
    RParen,
    LBracket,
    RBracket,
    AttributePrefix,
    End,
    //edge cases
    UnfinishedStringLiteral,
    UnfinishedMultiLineStringLiteral,
    IllegalToken,
}

/// A token: its kind, its text and the line and column where it starts.
#[derive(Debug, PartialEq, Clone, Copy)]
pub struct Token<'t> {
    pub kind: TokenKind,
    pub text: &'t str,
    pub location: Location,
}

/// The line and column reached after stepping through the first `v` bytes: a
/// line feed starts a new line, any other step (also one past the end) moves one
/// column on.
pub open spec fn cursor(bytes: Seq<u8>, v: nat) -> (nat, nat)
    decreases v,
{
    if v == 0 {
        (0, 0)
    } else {
        let prev = cursor(bytes, (v - 1) as nat);
        if v - 1 < bytes.len() && bytes[v - 1] == NL {
            (prev.0 + 1, 0)
        } else {
            (prev.0, prev.1 + 1)
        }
    }
}

pub proof fn lemma_cursor_bounds(bytes: Seq<u8>, v: nat)
    ensures
        cursor(bytes, v).0 <= v,
        cursor(bytes, v).1 <= v,
    decreases v,
{
    if v > 0 {
        lemma_cursor_bounds(bytes, (v - 1) as nat);
    }
}

/// The first offset from `i` on where a template string stops: before an
/// interpolation `${`, before or at a backtick, or at the end of the text.
pub open spec fn template_stop(bytes: Seq<u8>, i: int) -> int
    decreases bytes.len() - i,
{
    if i < 0 || i >= bytes.len() {
        i
    } else if holds_byte(bytes, i + 1, DOLLAR) && holds_byte(bytes, i + 2, LBRACE) {
        i
    } else if holds_byte(bytes, i + 1, BACKTICK) || bytes[i] == BACKTICK {
        i
    } else {
        template_stop(bytes, i + 1)
    }
}

pub proof fn lemma_template_stop(bytes: Seq<u8>, i: int)
    requires
        0 <= i <= bytes.len(),
    ensures
        i <= template_stop(bytes, i) <= bytes.len(),
        template_stop(bytes, i) < bytes.len() ==> (holds_byte(bytes, template_stop(bytes, i) + 1, DOLLAR)
            && holds_byte(bytes, template_stop(bytes, i) + 2, LBRACE)) || holds_byte(bytes, template_stop(bytes, i) + 1, BACKTICK)
            || bytes[template_stop(bytes, i)] == BACKTICK,
    decreases bytes.len() - i,
{
    if i < bytes.len() && !(holds_byte(bytes, i + 1, DOLLAR) && holds_byte(bytes, i + 2, LBRACE)) && !(holds_byte(
        bytes,
        i + 1,
        BACKTICK,
    ) || bytes[i] == BACKTICK) {
        lemma_template_stop(bytes, i + 1);
    }
}

/// What one call of the lexer does: the kind, the byte range of the text, the
/// offset of the token's location, the offset where lexing goes on and whether
/// it is then inside a template string.
pub struct SimpleStep {
    pub kind: TokenKind,
    pub lo: int,
    pub hi: int,
    pub start: int,
    pub next: int,
    pub inside: bool,
}

pub open spec fn simple_step(kind: TokenKind, lo: int, hi: int, start: int, next: int, inside: bool) -> SimpleStep {
    SimpleStep { kind, lo, hi, start, next, inside }
}

/// The kind of a word made of letters and underscores.
pub open spec fn word_kind(w: Seq<u8>) -> TokenKind {
    if w == kw_let() {
        TokenKind::Let
    } else if w == kw_get() {
        TokenKind::Get
    } else if w == kw_post() {
        TokenKind::Post
    } else if w == kw_header() {
        TokenKind::Header
    } else if w == kw_set() {
        TokenKind::SetKeyword
    } else if w == kw_body() {
        TokenKind::Body
    } else {
        TokenKind::Ident
    }
}

/// A template string whose opening byte (a backtick or a closing brace) is at `p`.
pub open spec fn template_at(bytes: Seq<u8>, p: int) -> SimpleStep {
    let r = template_stop(bytes, p + 1);
    if holds_byte(bytes, p + 1, DOLLAR) && holds_byte(bytes, p + 2, LBRACE) {
        // an interpolation right at the opening: an empty piece before it
        simple_step(TokenKind::MultiLineStringLiteral, p + 1, p + 1, p, p + 1, true)
    } else if r >= bytes.len() {
        simple_step(TokenKind::UnfinishedMultiLineStringLiteral, p + 1, r, p, r + 1, true)
    } else if holds_byte(bytes, r + 1, DOLLAR) && holds_byte(bytes, r + 2, LBRACE) {
        simple_step(TokenKind::MultiLineStringLiteral, p + 1, r + 1, p, r + 1, true)
    } else if holds_byte(bytes, r + 1, BACKTICK) {
        simple_step(TokenKind::MultiLineStringLiteral, p + 1, r + 1, p, r + 2, false)
    } else {
        simple_step(TokenKind::MultiLineStringLiteral, p + 1, r, p, r + 1, false)
    }
}

/// The token that starts at `p`, a byte that is not whitespace.
pub open spec fn simple_step_at(bytes: Seq<u8>, p: int, inside: bool) -> SimpleStep {
    let c = bytes[p];
    if c == QUOTE && holds_byte(bytes, p + 1, QUOTE) {
        simple_step(TokenKind::StringLiteral, p, p, p, p + 2, inside)
    } else if c == QUOTE {
        let e = scan(bytes, p + 2, ByteClass::NotQuoteOrNewline);
        if e >= bytes.len() || bytes[e] == NL {
            simple_step(TokenKind::UnfinishedStringLiteral, p + 1, e, p, e + 1, inside)
        } else {
            simple_step(TokenKind::StringLiteral, p + 1, e, p, e + 1, inside)
        }
    } else if c == BACKTICK && holds_byte(bytes, p + 1, BACKTICK) {
        simple_step(TokenKind::StringLiteral, p, p, p, p + 2, inside)
    } else if c == BACKTICK {
        template_at(bytes, p)
    } else if c == DOLLAR && holds_byte(bytes, p + 1, LBRACE) {
        simple_step(TokenKind::DollarSignLBracket, p, p + 2, p, p + 2, inside)
    } else if c == RBRACE && inside {
        template_at(bytes, p)
    } else if c == LPAREN {
        simple_step(TokenKind::LParen, p, p + 1, p, p + 1, inside)
    } else if c == RPAREN {
        simple_step(TokenKind::RParen, p, p + 1, p, p + 1, inside)
    } else if c == LBRACE {
        simple_step(TokenKind::LBracket, p, p + 1, p, p + 1, inside)
    } else if c == RBRACE {
        simple_step(TokenKind::RBracket, p, p + 1, p, p + 1, inside)
    } else if c == EQUALS {
        simple_step(TokenKind::Assign, p, p + 1, p, p + 1, inside)
    } else if c == AT {
        simple_step(TokenKind::AttributePrefix, p, p + 1, p, p + 1, inside)
    } else if c == SLASH && holds_byte(bytes, p + 1, SLASH) {
        let e = scan(bytes, p + 1, ByteClass::NotNewline);
        simple_step(TokenKind::Linecomment, p, e, p, e, inside)
    } else if c == SLASH {
        let e = scan(bytes, p + 1, ByteClass::NotWhitespace);
        simple_step(TokenKind::Pathname, p, e, p, e, inside)
    } else if c == HASH && holds_byte(bytes, p + 1, BANG) {
        let e = scan(bytes, p + 1, ByteClass::NotNewline);
        simple_step(TokenKind::Shebang, p, e, p, e, inside)
    } else if is_alpha(c) {
        let e = scan(bytes, p + 1, ByteClass::IdentChar);
        let w = bytes.subrange(p, e);
        if w == kw_http() || w == kw_https() {
            let e2 = scan(bytes, e, ByteClass::NotWhitespace);
            simple_step(TokenKind::Url, p, e2, p, e2, inside)
        } else {
            simple_step(word_kind(w), p, e, p, e, inside)
        }
    } else {
        simple_step(TokenKind::IllegalToken, p, p + 1, p, p + 1, inside)
    }
}

/// Whether the lexer can read a token at `p`: a string cannot open on the last
/// byte, and a token that starts with a byte outside ASCII is not read.
pub open spec fn readable_at(bytes: Seq<u8>, p: int) -> bool {
    p < bytes.len() ==> {
        &&& bytes[p] < 0x80
        &&& !(bytes[p] == QUOTE && p + 1 == bytes.len())
    }
}

/// What the lexer does when asked for a token at offset `v`.
pub open spec fn simple_next(bytes: Seq<u8>, v: int, inside: bool) -> SimpleStep {
    let p = crate::lexer::skip_ws(bytes, v);
    if p >= bytes.len() {
        simple_step(TokenKind::End, 0, 0, p, p, inside)
    } else {
        simple_step_at(bytes, p, inside)
    }
}

/// A token agrees with a step of lexing over `bytes`.
pub open spec fn simple_token_is(tok: Token, bytes: Seq<u8>, st: SimpleStep) -> bool {
    &&& tok.kind == st.kind
    &&& tok.text.spec_bytes() == bytes.subrange(st.lo, st.hi)
    &&& cursor(bytes, st.start as nat) == (tok.location.line as nat, tok.location.col as nat)
}

pub proof fn lemma_simple_step_at(bytes: Seq<u8>, p: int, inside: bool)
    requires
        valid_utf8(bytes),
        0 <= p < bytes.len(),
        is_char_boundary(bytes, p),
        !is_ws(bytes[p]),
        readable_at(bytes, p),
    ensures
        ({
            let st = simple_step_at(bytes, p, inside);
            &&& 0 <= st.lo <= st.hi <= bytes.len()
            &&& is_char_boundary(bytes, st.lo)
            &&& is_char_boundary(bytes, st.hi)
            &&& p < st.next <= bytes.len() + 1
            &&& st.next <= bytes.len() ==> is_char_boundary(bytes, st.next)
            &&& st.start == p
            &&& st.kind != TokenKind::End
        }),
{
    let len = bytes.len() as int;
    let c = bytes[p];
    is_char_boundary_start_end_of_seq(bytes);
    lemma_boundary_after_ascii(bytes, p);
    if p + 1 < len && bytes[p + 1] < 0x80 {
        lemma_boundary_after_ascii(bytes, p + 1);
    }
    if c == QUOTE && !holds_byte(bytes, p + 1, QUOTE) {
        let e = scan(bytes, p + 2, ByteClass::NotQuoteOrNewline);
        lemma_scan(bytes, p + 2, ByteClass::NotQuoteOrNewline);
        if e < len {
            lemma_boundary_at_ascii(bytes, e);
            lemma_boundary_after_ascii(bytes, e);
        }
    } else if c == BACKTICK || (c == RBRACE && inside) {
        lemma_template_stop(bytes, p + 1);
        let r = template_stop(bytes, p + 1);
        if r < len {
            if (holds_byte(bytes, r + 1, DOLLAR) && holds_byte(bytes, r + 2, LBRACE)) || holds_byte(bytes, r + 1, BACKTICK) {
                lemma_boundary_at_ascii(bytes, r + 1);
                if holds_byte(bytes, r + 1, BACKTICK) {
                    lemma_boundary_after_ascii(bytes, r + 1);
                }
            } else {
                lemma_boundary_at_ascii(bytes, r);
                lemma_boundary_after_ascii(bytes, r);
            }
        }
    } else if (c == SLASH && holds_byte(bytes, p + 1, SLASH)) || (c == HASH && holds_byte(bytes, p + 1, BANG)) {
        let e = scan(bytes, p + 1, ByteClass::NotNewline);
        lemma_scan(bytes, p + 1, ByteClass::NotNewline);
        if e < len {
            lemma_boundary_at_ascii(bytes, e);
        }
    } else if c == SLASH {
        let e = scan(bytes, p + 1, ByteClass::NotWhitespace);
        lemma_scan(bytes, p + 1, ByteClass::NotWhitespace);
        if e < len {
            lemma_boundary_at_ascii(bytes, e);
        }
    } else if is_alpha(c) {
        let e = scan(bytes, p + 1, ByteClass::IdentChar);
        lemma_scan(bytes, p + 1, ByteClass::IdentChar);
        assert(bytes[e - 1] < 0x80);
        lemma_boundary_after_ascii(bytes, e - 1);
        let e2 = scan(bytes, e, ByteClass::NotWhitespace);
        lemma_scan(bytes, e, ByteClass::NotWhitespace);
        if e2 < len {
            lemma_boundary_at_ascii(bytes, e2);
        }
    }
}

/// A url: where `http:` or `https:` begins a token, the token is a url that
/// holds all the text up to the next whitespace.
pub proof fn a_simple_url_runs_to_the_next_whitespace(bytes: Seq<u8>, p: int, inside: bool)
    requires
        word_then_colon_at(bytes, p, seq![104u8, 116u8, 116u8, 112u8]) || word_then_colon_at(
            bytes,
            p,
            seq![104u8, 116u8, 116u8, 112u8, 115u8],
        ),
    ensures
        simple_step_at(bytes, p, inside).kind == TokenKind::Url,
        simple_step_at(bytes, p, inside).lo == p,
        simple_step_at(bytes, p, inside).start == p,
        simple_step_at(bytes, p, inside).next == simple_step_at(bytes, p, inside).hi,
        runs_to_whitespace(bytes, p, simple_step_at(bytes, p, inside).hi),
{
    let n: int = if word_then_colon_at(bytes, p, seq![104u8, 116u8, 116u8, 112u8]) { 4 } else { 5 };
    assert(bytes[p] == 104u8) by {
        assert(bytes.subrange(p, p + n)[0] == bytes[p]);
    }
    assert forall|k: int| p + 1 <= k < p + n implies in_class(ByteClass::IdentChar, #[trigger] bytes[k]) by {
        assert(bytes.subrange(p, p + n)[k - p] == bytes[k]);
    }
    lemma_scan(bytes, p + 1, ByteClass::IdentChar);
    let e = scan(bytes, p + 1, ByteClass::IdentChar);
    if e < p + n {
        assert(in_class(ByteClass::IdentChar, bytes[e]));
    }
    if e > p + n {
        assert(in_class(ByteClass::IdentChar, bytes[p + n]));
    }
    assert(e == p + n);
    if n == 4 {
        assert(bytes.subrange(p, e) =~= kw_http());
    } else {
        assert(bytes.subrange(p, e) =~= kw_https());
    }
    lemma_scan(bytes, e, ByteClass::NotWhitespace);
    let e2 = scan(bytes, e, ByteClass::NotWhitespace);
    assert forall|k: int| p <= k < e2 implies !is_ws(#[trigger] bytes[k]) by {
        if k < e {
            assert(in_class(ByteClass::IdentChar, bytes[k]));
        } else {
            assert(in_class(ByteClass::NotWhitespace, bytes[k]));
        }
    }
}

} // verus!

verus! {

/// Reads tokens of the dialect off a source text one at a time.
#[derive(Debug)]
pub struct Lexer<'i> {
    input: &'i str,
    bytes: &'i [u8],
    position: usize,
    cursor: Location,
    inside_multiline_string: bool,
}

impl<'i> Lexer<'i> {
    pub closed spec fn source(&self) -> Seq<u8> {
        self.bytes@
    }

    pub closed spec fn source_str(&self) -> &'i str {
        self.input
    }

    pub closed spec fn offset(&self) -> int {
        self.position as int
    }

    pub closed spec fn inside_template(&self) -> bool {
        self.inside_multiline_string
    }

    closed spec fn inner(&self) -> bool {
        &&& self.bytes@ == self.input.spec_bytes()
        &&& valid_utf8(self.bytes@)
        &&& self.bytes@.len() + 4 <= usize::MAX
        &&& self.position <= self.bytes@.len() + 1
        &&& cursor(self.bytes@, self.position as nat) == (
            self.cursor.line as nat,
            self.cursor.col as nat,
        )
    }

    /// The lexer is between two tokens.
    pub closed spec fn wf(&self) -> bool {
        &&& self.inner()
        &&& self.position <= self.bytes@.len() ==> is_char_boundary(self.bytes@, self.position as int)
    }

    /// The lexer can read its next token.
    pub open spec fn can_read(&self) -> bool {
        readable_at(self.source(), crate::lexer::skip_ws(self.source(), self.offset()))
    }

    closed spec fn ready(&self) -> bool {
        &&& self.inner()
        &&& self.position < self.bytes@.len()
        &&& is_char_boundary(self.bytes@, self.position as int)
        &&& !is_ws(self.bytes@[self.position as int])
        &&& readable_at(self.bytes@, self.position as int)
    }

    closed spec fn token_read(old: Lexer<'i>, new: Lexer<'i>, tok: Token<'i>) -> bool {
        let st = simple_step_at(old.bytes@, old.position as int, old.inside_multiline_string);
        &&& new.inner()
        &&& new.bytes == old.bytes
        &&& new.input == old.input
        &&& simple_token_is(tok, old.bytes@, st)
        &&& new.position + 1 == st.next
        &&& new.inside_multiline_string == st.inside
    }

    pub fn new(input: &'i str) -> (r: Lexer<'i>)
        requires
            input.spec_bytes().len() + 4 <= usize::MAX,
        ensures
            r.wf(),
            r.source() == input.spec_bytes(),
            r.source_str() == input,
            r.offset() == 0,
            !r.inside_template(),
    {
        proof {
            lemma_str_ends(input);
        }
        Self {
            input,
            bytes: input.as_bytes(),
            position: 0,
            cursor: Location { line: 0, col: 0 },
            inside_multiline_string: false,
        }
    }

    /// The source text.
    pub fn input(&self) -> (r: &'i str)
        ensures
            r == self.source_str(),
    {
        self.input
    }

    fn input_slice(&self, lo: usize, hi: usize) -> (r: &'i str)
        requires
            self.inner(),
            lo <= hi <= self.bytes@.len(),
            is_char_boundary(self.bytes@, lo as int),
            is_char_boundary(self.bytes@, hi as int),
        ensures
            r.spec_bytes() == self.bytes@.subrange(lo as int, hi as int),
    {
        substr(self.input, lo, hi)
    }

    fn char_at(&self, position: usize) -> (r: Option<u8>)
        ensures
            r == (if position < self.bytes@.len() {
                Some(self.bytes@[position as int])
            } else {
                None
            }),
    {
        if position < self.bytes.len() {
            return Some(self.bytes[position]);
        }
        None
    }

    fn ch(&self) -> (r: Option<u8>)
        ensures
            r == (if self.position < self.bytes@.len() {
                Some(self.bytes@[self.position as int])
            } else {
                None
            }),
    {
        self.char_at(self.position)
    }

    /// Whether the byte `n` places ahead is `b`.
    fn peek_is(&self, n: usize, b: u8) -> (r: bool)
        requires
            self.inner(),
            n <= 2,
        ensures
            r == holds_byte(self.bytes@, self.position + n, b),
    {
        match self.char_at(self.position + n) {
            Some(c) => c == b,
            None => false,
        }
    }

    fn step(&mut self)
        requires
            old(self).inner(),
            old(self).position <= old(self).bytes@.len(),
        ensures
            final(self).inner(),
            final(self).bytes == old(self).bytes,
            final(self).input == old(self).input,
            final(self).inside_multiline_string == old(self).inside_multiline_string,
            final(self).position == old(self).position + 1,
    {
        proof {
            lemma_cursor_bounds(self.bytes@, self.position as nat);
        }
        if self.position < self.bytes.len() && self.bytes[self.position] == NL {
            self.cursor.line = self.cursor.line + 1;
            self.cursor.col = 0;
        } else {
            self.cursor.col = self.cursor.col + 1;
        }
        self.position = self.position + 1;
    }

    fn read_while(&mut self, class: ByteClass) -> (r: (usize, usize))
        requires
            old(self).inner(),
            old(self).position <= old(self).bytes@.len(),
        ensures
            final(self).inner(),
            final(self).bytes == old(self).bytes,
            final(self).input == old(self).input,
            final(self).inside_multiline_string == old(self).inside_multiline_string,
            r.0 == old(self).position,
            r.1 == scan(final(self).bytes@, old(self).position + 1, class),
            final(self).position + 1 == r.1,
    {
        let start_pos = self.position;
        proof {
            lemma_scan(self.bytes@, start_pos + 1, class);
        }
        while self.position + 1 < self.bytes.len() && crate::lexer::passes(
            class,
            self.bytes[self.position + 1],
        )
            invariant
                self.inner(),
                self.bytes == old(self).bytes,
                self.input == old(self).input,
                self.inside_multiline_string == old(self).inside_multiline_string,
                start_pos <= self.position <= self.bytes@.len(),
                scan(self.bytes@, self.position + 1, class) == scan(self.bytes@, start_pos + 1, class),
            decreases self.bytes@.len() - self.position,
        {
            self.step();
        }
        (start_pos, self.position + 1)
    }

    fn skip_whitespace(&mut self)
        requires
            old(self).wf(),
        ensures
            final(self).wf(),
            final(self).bytes == old(self).bytes,
            final(self).input == old(self).input,
            final(self).inside_multiline_string == old(self).inside_multiline_string,
            final(self).position == crate::lexer::skip_ws(final(self).bytes@, old(self).position as int),
    {
        proof {
            crate::lexer::lemma_skip_ws(self.bytes@, self.position as int);
            lemma_str_ends(self.input);
        }
        while self.position < self.bytes.len() && crate::lexer::is_ascii_ws(self.bytes[self.position])
            invariant
                self.wf(),
                self.bytes == old(self).bytes,
                self.input == old(self).input,
                self.inside_multiline_string == old(self).inside_multiline_string,
                crate::lexer::skip_ws(self.bytes@, self.position as int) == crate::lexer::skip_ws(
                    self.bytes@,
                    old(self).position as int,
                ),
            decreases self.bytes@.len() + 1 - self.position,
        {
            proof {
                lemma_boundary_after_ascii(self.bytes@, self.position as int);
            }
            self.step();
        }
    }

    fn single(&self, kind: TokenKind, width: usize) -> (tok: Token<'i>)
        requires
            self.inner(),
            1 <= width <= 2,
            self.position + width <= self.bytes@.len(),
            is_char_boundary(self.bytes@, self.position as int),
            is_char_boundary(self.bytes@, self.position + width),
        ensures
            tok.kind == kind,
            tok.location == self.cursor,
            tok.text.spec_bytes() == self.bytes@.subrange(self.position as int, self.position + width),
    {
        Token { kind, text: self.input_slice(self.position, self.position + width), location: self.cursor }
    }

    /// `after` is `before` once one token was read: the same text, further on.
    pub open spec fn lexed_once(before: Lexer<'i>, after: Lexer<'i>) -> bool {
        let st = simple_next(before.source(), before.offset(), before.inside_template());
        &&& after.source() == before.source()
        &&& after.source_str() == before.source_str()
        &&& after.offset() == st.next
        &&& after.inside_template() == st.inside
    }

    /// The next token, or an `End` token when the text is used up.
    pub fn next(&mut self) -> (tok: Token<'i>)
        requires
            old(self).wf(),
            old(self).can_read(),
        ensures
            Lexer::lexed_once(*old(self), *final(self)),
            final(self).wf(),
            final(self).source() == old(self).source(),
            final(self).source_str() == old(self).source_str(),
            ({
                let st = simple_next(old(self).source(), old(self).offset(), old(self).inside_template());
                &&& simple_token_is(tok, old(self).source(), st)
                &&& final(self).offset() == st.next
                &&& final(self).inside_template() == st.inside
            }),
    {
        let ghost v0 = self.position as int;
        self.skip_whitespace();
        proof {
            crate::lexer::lemma_skip_ws(self.bytes@, v0);
            lemma_str_ends(self.input);
        }
        let c = match self.ch() {
            Some(c) => c,
            None => {
                return Token {
                    kind: TokenKind::End,
                    location: self.cursor,
                    text: self.input_slice(0, 0),
                };
            },
        };
        let ghost p = self.position as int;
        proof {
            lemma_simple_step_at(self.bytes@, p, self.inside_multiline_string);
            lemma_boundary_after_ascii(self.bytes@, p);
            if p + 1 < self.bytes@.len() && self.bytes@[p + 1] < 0x80 {
                lemma_boundary_after_ascii(self.bytes@, p + 1);
            }
        }
        let t = if c == QUOTE && self.peek_is(1, QUOTE) {
            self.empty_string_literal()
        } else if c == QUOTE {
            self.string_literal()
        } else if c == BACKTICK && self.peek_is(1, BACKTICK) {
            self.empty_string_literal()
        } else if c == BACKTICK {
            self.multiline_string_literal()
        } else if c == DOLLAR && self.peek_is(1, LBRACE) {
            let token = self.single(TokenKind::DollarSignLBracket, 2);
            self.step();
            token
        } else if c == RBRACE && self.inside_multiline_string {
            self.multiline_string_literal()
        } else if c == LPAREN {
            self.single(TokenKind::LParen, 1)
        } else if c == RPAREN {
            self.single(TokenKind::RParen, 1)
        } else if c == LBRACE {
            self.single(TokenKind::LBracket, 1)
        } else if c == RBRACE {
            self.single(TokenKind::RBracket, 1)
        } else if c == EQUALS {
            self.single(TokenKind::Assign, 1)
        } else if c == AT {
            self.single(TokenKind::AttributePrefix, 1)
        } else if c == SLASH && self.peek_is(1, SLASH) {
            self.line_comment()
        } else if c == SLASH {
            self.pathname()
        } else if c == HASH && self.peek_is(1, BANG) {
            self.shebang()
        } else if crate::lexer::is_ascii_alpha(c) {
            self.keyword_or_identifier()
        } else {
            self.single(TokenKind::IllegalToken, 1)
        };
        self.step();
        t
    }

    fn multiline_string_literal(&mut self) -> (tok: Token<'i>)
        requires
            old(self).ready(),
            (old(self).bytes@[old(self).position as int] == BACKTICK && !holds_byte(
                old(self).bytes@,
                old(self).position + 1,
                BACKTICK,
            )) || (old(self).bytes@[old(self).position as int] == RBRACE
                && old(self).inside_multiline_string),
        ensures
            Self::token_read(*old(self), *final(self), tok),
    {
        let ghost p = self.position as int;
        proof {
            lemma_str_ends(self.input);
            lemma_simple_step_at(self.bytes@, p, self.inside_multiline_string);
            lemma_template_stop(self.bytes@, p + 1);
            lemma_boundary_after_ascii(self.bytes@, p);
        }
        self.inside_multiline_string = true;
        let location = self.cursor;
        if self.peek_is(1, DOLLAR) && self.peek_is(2, LBRACE) {
            let v = self.position;
            return Token {
                kind: TokenKind::MultiLineStringLiteral,
                location,
                text: self.input_slice(v + 1, v + 1),
            };
        }
        self.step();
        let start_pos = self.position;
        loop
            invariant
                self.inner(),
                self.bytes == old(self).bytes,
                self.input == old(self).input,
                self.inside_multiline_string,
                start_pos == p + 1,
                start_pos <= self.position <= template_stop(self.bytes@, p + 1),
                template_stop(self.bytes@, self.position as int) == template_stop(self.bytes@, p + 1),
                template_stop(self.bytes@, p + 1) <= self.bytes@.len(),
                is_char_boundary(self.bytes@, start_pos as int),
                is_char_boundary(self.bytes@, self.bytes@.len() as int),
                cursor(self.bytes@, p as nat) == (location.line as nat, location.col as nat),
                p == old(self).position,
                simple_step_at(self.bytes@, p, old(self).inside_multiline_string) == template_at(self.bytes@, p),
                !(holds_byte(self.bytes@, p + 1, DOLLAR) && holds_byte(self.bytes@, p + 2, LBRACE)),
            decreases self.bytes@.len() + 1 - self.position,
        {
            let v = self.position;
            if self.peek_is(1, DOLLAR) && self.peek_is(2, LBRACE) {
                proof {
                    lemma_boundary_at_ascii(self.bytes@, v + 1);
                    assert(template_stop(self.bytes@, v as int) == v);
                }
                return Token {
                    kind: TokenKind::MultiLineStringLiteral,
                    location,
                    text: self.input_slice(start_pos, v + 1),
                };
            }
            if self.peek_is(1, BACKTICK) {
                proof {
                    lemma_boundary_at_ascii(self.bytes@, v + 1);
                    assert(template_stop(self.bytes@, v as int) == v);
                }
                self.inside_multiline_string = false;
                let text = self.input_slice(start_pos, v + 1);
                self.step();
                return Token { kind: TokenKind::MultiLineStringLiteral, location, text };
            }
            match self.ch() {
                None => {
                    return Token {
                        kind: TokenKind::UnfinishedMultiLineStringLiteral,
                        location,
                        text: self.input_slice(start_pos, v),
                    };
                },
                Some(b) => {
                    if b == BACKTICK {
                        proof {
                            lemma_boundary_at_ascii(self.bytes@, v as int);
                            assert(template_stop(self.bytes@, v as int) == v);
                        }
                        self.inside_multiline_string = false;
                        return Token {
                            kind: TokenKind::MultiLineStringLiteral,
                            location,
                            text: self.input_slice(start_pos, v),
                        };
                    }
                },
            }
            proof {
                lemma_template_stop(self.bytes@, v + 1);
            }
            self.step();
        }
    }

    fn string_literal(&mut self) -> (tok: Token<'i>)
        requires
            old(self).ready(),
            old(self).bytes@[old(self).position as int] == QUOTE,
            !holds_byte(old(self).bytes@, old(self).position + 1, QUOTE),
        ensures
            Self::token_read(*old(self), *final(self), tok),
    {
        let ghost p = self.position as int;
        proof {
            lemma_simple_step_at(self.bytes@, p, self.inside_multiline_string);
            lemma_scan(self.bytes@, p + 2, ByteClass::NotQuoteOrNewline);
        }
        let location = self.cursor;
        self.step();
        let (s, e) = self.read_while(ByteClass::NotQuoteOrNewline);
        let string = self.input_slice(s, e);
        self.step();
        let unfinished = match self.ch() {
            Some(b) => b == NL,
            None => true,
        };
        if unfinished {
            return Token { kind: TokenKind::UnfinishedStringLiteral, location, text: string };
        }
        Token { kind: TokenKind::StringLiteral, location, text: string }
    }

    fn empty_string_literal(&mut self) -> (tok: Token<'i>)
        requires
            old(self).ready(),
            (old(self).bytes@[old(self).position as int] == QUOTE && holds_byte(
                old(self).bytes@,
                old(self).position + 1,
                QUOTE,
            )) || (old(self).bytes@[old(self).position as int] == BACKTICK && holds_byte(
                old(self).bytes@,
                old(self).position + 1,
                BACKTICK,
            )),
        ensures
            Self::token_read(*old(self), *final(self), tok),
    {
        let location = self.cursor;
        let text = self.input_slice(self.position, self.position);
        self.step();
        Token { kind: TokenKind::StringLiteral, location, text }
    }

    fn keyword_or_identifier(&mut self) -> (tok: Token<'i>)
        requires
            old(self).ready(),
            is_alpha(old(self).bytes@[old(self).position as int]),
        ensures
            Self::token_read(*old(self), *final(self), tok),
    {
        proof {
            lemma_simple_step_at(self.bytes@, self.position as int, self.inside_multiline_string);
            lemma_scan(self.bytes@, self.position + 1, ByteClass::IdentChar);
        }
        let location = self.cursor;
        let (s, e) = self.read_while(ByteClass::IdentChar);
        let b = self.bytes;
        if range_eq(b, s, e, [104u8, 116u8, 116u8, 112u8].as_slice()) || range_eq(
            b,
            s,
            e,
            [104u8, 116u8, 116u8, 112u8, 115u8].as_slice(),
        ) {
            let (_, e2) = self.read_while(ByteClass::NotWhitespace);
            return Token { kind: TokenKind::Url, location, text: self.input_slice(s, e2) };
        }
        let kind = if range_eq(b, s, e, [108u8, 101u8, 116u8].as_slice()) {
            TokenKind::Let
        } else if range_eq(b, s, e, [103u8, 101u8, 116u8].as_slice()) {
            TokenKind::Get
        } else if range_eq(b, s, e, [112u8, 111u8, 115u8, 116u8].as_slice()) {
            TokenKind::Post
        } else if range_eq(b, s, e, [104u8, 101u8, 97u8, 100u8, 101u8, 114u8].as_slice()) {
            TokenKind::Header
        } else if range_eq(b, s, e, [115u8, 101u8, 116u8].as_slice()) {
            TokenKind::SetKeyword
        } else if range_eq(b, s, e, [98u8, 111u8, 100u8, 121u8].as_slice()) {
            TokenKind::Body
        } else {
            TokenKind::Ident
        };
        Token { kind, location, text: self.input_slice(s, e) }
    }

    fn pathname(&mut self) -> (tok: Token<'i>)
        requires
            old(self).ready(),
            old(self).bytes@[old(self).position as int] == SLASH,
            !holds_byte(old(self).bytes@, old(self).position + 1, SLASH),
        ensures
            Self::token_read(*old(self), *final(self), tok),
    {
        proof {
            lemma_simple_step_at(self.bytes@, self.position as int, self.inside_multiline_string);
        }
        let location = self.cursor;
        let (s, e) = self.read_while(ByteClass::NotWhitespace);
        Token { kind: TokenKind::Pathname, location, text: self.input_slice(s, e) }
    }

    fn shebang(&mut self) -> (tok: Token<'i>)
        requires
            old(self).ready(),
            old(self).bytes@[old(self).position as int] == HASH,
            holds_byte(old(self).bytes@, old(self).position + 1, BANG),
        ensures
            Self::token_read(*old(self), *final(self), tok),
    {
        proof {
            lemma_simple_step_at(self.bytes@, self.position as int, self.inside_multiline_string);
        }
        let location = self.cursor;
        let (s, e) = self.read_while(ByteClass::NotNewline);
        Token { kind: TokenKind::Shebang, location, text: self.input_slice(s, e) }
    }

    fn line_comment(&mut self) -> (tok: Token<'i>)
        requires
            old(self).ready(),
            old(self).bytes@[old(self).position as int] == SLASH,
            holds_byte(old(self).bytes@, old(self).position + 1, SLASH),
        ensures
            Self::token_read(*old(self), *final(self), tok),
    {
        proof {
            lemma_simple_step_at(self.bytes@, self.position as int, self.inside_multiline_string);
        }
        let location = self.cursor;
        let (s, e) = self.read_while(ByteClass::NotNewline);
        Token { kind: TokenKind::Linecomment, location, text: self.input_slice(s, e) }
    }
}

} // verus!
