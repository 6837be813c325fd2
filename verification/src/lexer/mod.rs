//! The lexer of the request language: it turns source text into tokens.
pub mod locations;

use vstd::prelude::*;
use vstd::string::*;
use vstd::utf8::*;

use crate::text::{lemma_boundary_after_ascii, lemma_boundary_at_ascii, lemma_str_ends, range_eq, substr};
use self::locations::{GetSpan, Location, Position, Span};

verus! {

pub const NL: u8 = 10;
pub const QUOTE: u8 = 34;
pub const BACKTICK: u8 = 96;
pub const DOLLAR: u8 = 36;
pub const LBRACE: u8 = 123;
pub const RBRACE: u8 = 125;
pub const LPAREN: u8 = 40;
pub const RPAREN: u8 = 41;
pub const LSQUARE: u8 = 91;
pub const RSQUARE: u8 = 93;
pub const COMMA: u8 = 44;
pub const COLON: u8 = 58;
pub const EQUALS: u8 = 61;
pub const AT: u8 = 64;
pub const SLASH: u8 = 47;
pub const HASH: u8 = 35;
pub const BANG: u8 = 33;
pub const DOT: u8 = 46;
pub const UNDERSCORE: u8 = 95;

/// The kinds of tokens of the language.
#[derive(Debug, PartialEq, Eq, Clone, Copy, Structural)]
pub enum TokenKind {
    // keywords
    Get,
    Post,
    Put,
    Patch,
    Delete,
    Header,
    Body,
    SetKeyword,
    Let,
    Null,
    Ident,
    // literals
    Boolean,
    Number,
    StringLiteral,
    MultiLineStringLiteral { head: bool, tail: bool },
    Url,
    Pathname,
    Linecomment,
    Shebang,
    // operators
    Assign,
    // special characters
    DollarSignLBracket,
    LParen,
    RParen,
    LBracket,
    RBracket,
    LSquare,
    RSquare,
    Colon,
    AttributePrefix,
    Comma,
    End,
    //edge cases
    UnfinishedStringLiteral,
    UnfinishedMultiLineStringLiteral,
    IllegalToken,
}

/// A token: its kind, its text in the source and the position where it starts.
#[derive(Debug, PartialEq, Clone, Copy)]
pub struct Token<'t> {
    pub kind: TokenKind,
    pub text: &'t str,
    pub start: Position,
}

// ---------------------------------------------------------------------------
// Byte classes
// ---------------------------------------------------------------------------

/// ASCII whitespace: space, tab, line feed, form feed and carriage return.
pub open spec fn is_ws(b: u8) -> bool {
    b == 32 || b == 9 || b == 10 || b == 12 || b == 13
}

pub open spec fn is_alpha(b: u8) -> bool {
    (65 <= b && b <= 90) || (97 <= b && b <= 122)
}

pub open spec fn is_digit(b: u8) -> bool {
    48 <= b && b <= 57
}

/// The classes of bytes that the lexer reads runs of.
#[derive(Debug, PartialEq, Eq, Clone, Copy, Structural)]
pub enum ByteClass {
    IdentChar,
    NotWhitespace,
    NotNewline,
    NotQuoteOrNewline,
    Digit,
}

pub open spec fn in_class(c: ByteClass, b: u8) -> bool {
    match c {
        ByteClass::IdentChar => is_alpha(b) || b == UNDERSCORE,
        ByteClass::NotWhitespace => !is_ws(b),
        ByteClass::NotNewline => b != NL,
        ByteClass::NotQuoteOrNewline => b != QUOTE && b != NL,
        ByteClass::Digit => is_digit(b),
    }
}

pub fn passes(c: ByteClass, b: u8) -> (r: bool)
    ensures
        r == in_class(c, b),
{
    match c {
        ByteClass::IdentChar => is_ascii_alpha(b) || b == UNDERSCORE,
        ByteClass::NotWhitespace => !is_ascii_ws(b),
        ByteClass::NotNewline => b != NL,
        ByteClass::NotQuoteOrNewline => b != QUOTE && b != NL,
        ByteClass::Digit => is_ascii_digit(b),
    }
}

pub fn is_ascii_ws(b: u8) -> (r: bool)
    ensures
        r == is_ws(b),
{
    b == 32 || b == 9 || b == 10 || b == 12 || b == 13
}

pub fn is_ascii_alpha(b: u8) -> (r: bool)
    ensures
        r == is_alpha(b),
{
    (65 <= b && b <= 90) || (97 <= b && b <= 122)
}

pub fn is_ascii_digit(b: u8) -> (r: bool)
    ensures
        r == is_digit(b),
{
    48 <= b && b <= 57
}

// ---------------------------------------------------------------------------
// The specification of lexing
// ---------------------------------------------------------------------------

pub open spec fn holds_byte(bytes: Seq<u8>, i: int, b: u8) -> bool {
    0 <= i < bytes.len() && bytes[i] == b
}

/// The first offset from `i` on that holds no byte of class `c`.
pub open spec fn scan(bytes: Seq<u8>, i: int, c: ByteClass) -> int
    decreases bytes.len() - i,
{
    if i < 0 || i >= bytes.len() || !in_class(c, bytes[i]) {
        i
    } else {
        scan(bytes, i + 1, c)
    }
}

/// The first offset from `i` on that holds no whitespace.
pub open spec fn skip_ws(bytes: Seq<u8>, i: int) -> int
    decreases bytes.len() - i,
{
    if i < 0 || i >= bytes.len() || !is_ws(bytes[i]) {
        i
    } else {
        skip_ws(bytes, i + 1)
    }
}

/// The first offset from `i` on where a template string stops: before an
/// interpolation `${`, at a closing backtick, or at the end of the text.
pub open spec fn template_stop(bytes: Seq<u8>, i: int) -> int
    decreases bytes.len() - i,
{
    if i < 0 || i >= bytes.len() {
        i
    } else if holds_byte(bytes, i + 1, DOLLAR) && holds_byte(bytes, i + 2, LBRACE) {
        i
    } else if bytes[i] == BACKTICK {
        i
    } else {
        template_stop(bytes, i + 1)
    }
}

/// The line and column reached after stepping through the first `v` bytes:
/// a line feed starts a new line, except when it is the last byte.
pub open spec fn cursor(bytes: Seq<u8>, v: nat) -> (nat, nat)
    decreases v,
{
    if v == 0 {
        (0, 0)
    } else {
        let prev = cursor(bytes, (v - 1) as nat);
        if v < bytes.len() {
            if bytes[v - 1] == NL {
                (prev.0 + 1, 0)
            } else {
                (prev.0, prev.1 + 1)
            }
        } else {
            prev
        }
    }
}

/// `p` is the position of byte offset `p.value` of `bytes`.
pub open spec fn at_cursor(bytes: Seq<u8>, p: Position) -> bool {
    cursor(bytes, p.value as nat) == (p.line as nat, p.col as nat)
}

/// What one call of the lexer does: the kind of the token, the byte range of
/// its text, the offset where it starts, the offset where lexing goes on, and
/// the new nesting depth of template strings.
pub struct LexStep {
    pub kind: TokenKind,
    pub lo: int,
    pub hi: int,
    pub start: int,
    pub next: int,
    pub depth: u8,
}

pub open spec fn lex_step(kind: TokenKind, lo: int, hi: int, start: int, next: int, depth: u8) -> LexStep {
    LexStep { kind, lo, hi, start, next, depth }
}

pub open spec fn depth_up(d: u8) -> u8 {
    if d == 255 { 0 } else { (d + 1) as u8 }
}

pub open spec fn depth_down(d: u8) -> u8 {
    if d == 0 { 255 } else { (d - 1) as u8 }
}

pub open spec fn kw_let() -> Seq<u8> { seq![108u8, 101u8, 116u8] }
pub open spec fn kw_get() -> Seq<u8> { seq![103u8, 101u8, 116u8] }
pub open spec fn kw_post() -> Seq<u8> { seq![112u8, 111u8, 115u8, 116u8] }
pub open spec fn kw_put() -> Seq<u8> { seq![112u8, 117u8, 116u8] }
pub open spec fn kw_patch() -> Seq<u8> { seq![112u8, 97u8, 116u8, 99u8, 104u8] }
pub open spec fn kw_delete() -> Seq<u8> { seq![100u8, 101u8, 108u8, 101u8, 116u8, 101u8] }
pub open spec fn kw_header() -> Seq<u8> { seq![104u8, 101u8, 97u8, 100u8, 101u8, 114u8] }
pub open spec fn kw_set() -> Seq<u8> { seq![115u8, 101u8, 116u8] }
pub open spec fn kw_body() -> Seq<u8> { seq![98u8, 111u8, 100u8, 121u8] }
pub open spec fn kw_false() -> Seq<u8> { seq![102u8, 97u8, 108u8, 115u8, 101u8] }
pub open spec fn kw_true() -> Seq<u8> { seq![116u8, 114u8, 117u8, 101u8] }
pub open spec fn kw_null() -> Seq<u8> { seq![110u8, 117u8, 108u8, 108u8] }
pub open spec fn kw_http() -> Seq<u8> { seq![104u8, 116u8, 116u8, 112u8] }
pub open spec fn kw_https() -> Seq<u8> { seq![104u8, 116u8, 116u8, 112u8, 115u8] }

/// The kind of a word made of letters and underscores.
pub open spec fn word_kind(w: Seq<u8>) -> TokenKind {
    if w == kw_let() {
        TokenKind::Let
    } else if w == kw_get() {
        TokenKind::Get
    } else if w == kw_post() {
        TokenKind::Post
    } else if w == kw_put() {
        TokenKind::Put
    } else if w == kw_patch() {
        TokenKind::Patch
    } else if w == kw_delete() {
        TokenKind::Delete
    } else if w == kw_header() {
        TokenKind::Header
    } else if w == kw_set() {
        TokenKind::SetKeyword
    } else if w == kw_body() {
        TokenKind::Body
    } else if w == kw_false() || w == kw_true() {
        TokenKind::Boolean
    } else if w == kw_null() {
        TokenKind::Null
    } else {
        TokenKind::Ident
    }
}

/// The byte width of the character that starts at offset `p`.
pub open spec fn char_width(bytes: Seq<u8>, p: int) -> int {
    length_of_first_scalar(bytes.subrange(p, bytes.len() as int))
}

/// The token that starts at `p` and what follows it, when `p` holds a byte
/// that is not whitespace.
pub open spec fn step_at(bytes: Seq<u8>, p: int, depth: u8) -> LexStep {
    let len = bytes.len() as int;
    let c = bytes[p];
    if c == QUOTE && holds_byte(bytes, p + 1, QUOTE) {
        lex_step(TokenKind::StringLiteral, p, p, p, p + 2, depth)
    } else if c == QUOTE {
        let e = scan(bytes, p + 1, ByteClass::NotQuoteOrNewline);
        if e >= len || bytes[e] == NL {
            // an unterminated string keeps all the text up to its end
            lex_step(TokenKind::UnfinishedStringLiteral, 0, e, p, e, depth)
        } else {
            lex_step(TokenKind::StringLiteral, p, e + 1, p, e + 1, depth)
        }
    } else if c == BACKTICK {
        if holds_byte(bytes, p + 1, BACKTICK) {
            lex_step(TokenKind::StringLiteral, p, p, p, p + 2, depth)
        } else if holds_byte(bytes, p + 1, DOLLAR) && holds_byte(bytes, p + 2, LBRACE) {
            lex_step(
                TokenKind::MultiLineStringLiteral { head: true, tail: false },
                p,
                p + 1,
                p,
                p + 1,
                depth_up(depth),
            )
        } else {
            template_body(bytes, p, p + 1, true, depth_up(depth))
        }
    } else if c == DOLLAR && holds_byte(bytes, p + 1, LBRACE) {
        lex_step(TokenKind::DollarSignLBracket, p, p + 2, p, p + 2, depth)
    } else if c == RBRACE && depth > 0 {
        if holds_byte(bytes, p + 1, BACKTICK) {
            lex_step(
                TokenKind::MultiLineStringLiteral { head: false, tail: true },
                p + 1,
                p + 2,
                p + 1,
                p + 2,
                depth_down(depth),
            )
        } else if holds_byte(bytes, p + 1, DOLLAR) && holds_byte(bytes, p + 2, LBRACE) {
            // an interpolation right after another one: an empty piece between them
            lex_step(
                TokenKind::MultiLineStringLiteral { head: false, tail: false },
                p + 1,
                p + 1,
                p + 1,
                p + 1,
                depth,
            )
        } else {
            template_body(bytes, p + 1, p + 1, false, depth)
        }
    } else if c == LPAREN {
        lex_step(TokenKind::LParen, p, p + 1, p, p + 1, depth)
    } else if c == RPAREN {
        lex_step(TokenKind::RParen, p, p + 1, p, p + 1, depth)
    } else if c == LBRACE {
        lex_step(TokenKind::LBracket, p, p + 1, p, p + 1, depth)
    } else if c == RBRACE {
        lex_step(TokenKind::RBracket, p, p + 1, p, p + 1, depth)
    } else if c == LSQUARE {
        lex_step(TokenKind::LSquare, p, p + 1, p, p + 1, depth)
    } else if c == RSQUARE {
        lex_step(TokenKind::RSquare, p, p + 1, p, p + 1, depth)
    } else if c == COMMA {
        lex_step(TokenKind::Comma, p, p + 1, p, p + 1, depth)
    } else if c == COLON {
        lex_step(TokenKind::Colon, p, p + 1, p, p + 1, depth)
    } else if c == EQUALS {
        lex_step(TokenKind::Assign, p, p + 1, p, p + 1, depth)
    } else if c == AT {
        lex_step(TokenKind::AttributePrefix, p, p + 1, p, p + 1, depth)
    } else if c == SLASH && holds_byte(bytes, p + 1, SLASH) {
        let e = scan(bytes, p + 1, ByteClass::NotNewline);
        lex_step(TokenKind::Linecomment, p, e, p, e, depth)
    } else if c == SLASH {
        let e = scan(bytes, p + 1, ByteClass::NotWhitespace);
        lex_step(TokenKind::Pathname, p, e, p, e, depth)
    } else if c == HASH && holds_byte(bytes, p + 1, BANG) {
        let e = scan(bytes, p + 1, ByteClass::NotNewline);
        lex_step(TokenKind::Shebang, p, e, p, e, depth)
    } else if is_alpha(c) {
        let e = scan(bytes, p + 1, ByteClass::IdentChar);
        let w = bytes.subrange(p, e);
        if w == kw_http() || w == kw_https() {
            let e2 = scan(bytes, e, ByteClass::NotWhitespace);
            lex_step(TokenKind::Url, p, e2, p, e2, depth)
        } else {
            lex_step(word_kind(w), p, e, p, e, depth)
        }
    } else if is_digit(c) {
        let e = scan(bytes, p + 1, ByteClass::Digit);
        if holds_byte(bytes, e, DOT) && e + 1 < len && is_digit(bytes[e + 1]) {
            let e2 = scan(bytes, e + 2, ByteClass::Digit);
            lex_step(TokenKind::Number, p, e2, p, e2, depth)
        } else if holds_byte(bytes, e, DOT) {
            // a dot without digits after it is dropped
            lex_step(TokenKind::Number, p, e, p, e + 1, depth)
        } else {
            lex_step(TokenKind::Number, p, e, p, e, depth)
        }
    } else if c < 0x80 {
        lex_step(TokenKind::IllegalToken, p, p + 1, p, p + 1, depth)
    } else {
        // a character outside ASCII that starts no token is taken whole
        let w = char_width(bytes, p);
        lex_step(TokenKind::IllegalToken, p, p + w, p, p + w, depth)
    }
}

/// A piece of template string whose text starts at `s`, scanned from `q` on.
pub open spec fn template_body(bytes: Seq<u8>, s: int, q: int, head: bool, depth: u8) -> LexStep {
    let r = template_stop(bytes, q);
    if r >= bytes.len() {
        lex_step(TokenKind::UnfinishedMultiLineStringLiteral, s, r, s, r + 1, depth)
    } else if holds_byte(bytes, r + 1, DOLLAR) && holds_byte(bytes, r + 2, LBRACE) {
        lex_step(TokenKind::MultiLineStringLiteral { head, tail: false }, s, r + 1, s, r + 1, depth)
    } else {
        lex_step(
            TokenKind::MultiLineStringLiteral { head, tail: true },
            s,
            r + 1,
            s,
            r + 1,
            depth_down(depth),
        )
    }
}

/// What the lexer does when it is asked for a token at offset `v` with template
/// strings nested `depth` deep.
pub open spec fn next_step(bytes: Seq<u8>, v: int, depth: u8) -> LexStep {
    let p = skip_ws(bytes, v);
    if p >= bytes.len() {
        lex_step(TokenKind::End, 0, 0, p, p, depth)
    } else {
        step_at(bytes, p, depth)
    }
}

/// All the tokens of a text from offset `v` on, up to and without the end token.
pub open spec fn tokens_from(bytes: Seq<u8>, v: int, depth: u8) -> Seq<LexStep>
    decreases bytes.len() + 2 - v,
{
    let st = next_step(bytes, v, depth);
    if st.kind == TokenKind::End || v < 0 || v > bytes.len() + 1 || st.next <= v || st.next > bytes.len() + 1 {
        Seq::empty()
    } else {
        seq![st] + tokens_from(bytes, st.next, st.depth)
    }
}

/// A token agrees with a step of lexing over `bytes`.
pub open spec fn token_is(tok: Token, bytes: Seq<u8>, st: LexStep) -> bool {
    &&& tok.kind == st.kind
    &&& tok.text.spec_bytes() == bytes.subrange(st.lo, st.hi)
    &&& tok.start.value == st.start
    &&& at_cursor(bytes, tok.start)
}

/// An empty text lexes to its end at once: the first token is the end token,
/// with no text, at the start of the first line.
pub proof fn an_empty_text_ends_at_once(depth: u8)
    ensures
        ({
            let st = next_step(Seq::<u8>::empty(), 0, depth);
            &&& st.kind == TokenKind::End
            &&& st.lo == st.hi
            &&& st.start == 0
            &&& cursor(Seq::<u8>::empty(), 0) == (0nat, 0nat)
        }),
{
}

/// A text that starts with a character other than white space has its first
/// token start at its first byte, on the first line and column.
pub proof fn the_first_token_starts_at_the_start(bytes: Seq<u8>)
    requires
        bytes.len() > 0,
        !is_ws(bytes[0]),
    ensures
        next_step(bytes, 0, 0).start == 0,
        cursor(bytes, 0) == (0nat, 0nat),
{
    lemma_skip_ws(bytes, 0);
}

/// A token's span, from its start to the column right after its text, is as
/// wide as its text is long.
pub proof fn a_token_span_is_as_wide_as_its_text(t: Token)
    requires
        t.start.col + t.text.spec_bytes().len() <= usize::MAX,
    ensures
        crate::locations::spec_width(crate::locations::GetSpan::spec_span(&t)) == t.text.spec_bytes().len(),
{
}

/// Where a token ends, as a line and a column, is its end position without the
/// byte offset: the line it starts on, and its start column moved by the length
/// of its text.
pub proof fn the_end_location_is_the_end_position(t: Token)
    requires
        t.start.col + t.text.spec_bytes().len() <= usize::MAX,
        t.start.value + t.text.spec_bytes().len() <= usize::MAX,
    ensures
        spec_end_position(t).line == t.start.line,
        spec_end_position(t).col == t.start.col + t.text.spec_bytes().len(),
{
}

// ---------------------------------------------------------------------------
// Lemmas
// ---------------------------------------------------------------------------

pub proof fn lemma_scan(bytes: Seq<u8>, i: int, c: ByteClass)
    requires
        0 <= i,
    ensures
        i <= scan(bytes, i, c),
        i <= bytes.len() ==> scan(bytes, i, c) <= bytes.len(),
        forall|k: int| i <= k < scan(bytes, i, c) ==> in_class(c, #[trigger] bytes[k]),
        scan(bytes, i, c) < bytes.len() ==> !in_class(c, bytes[scan(bytes, i, c)]),
    decreases bytes.len() - i,
{
    if i < bytes.len() && in_class(c, bytes[i]) {
        lemma_scan(bytes, i + 1, c);
    }
}

pub proof fn lemma_skip_ws(bytes: Seq<u8>, i: int)
    requires
        0 <= i,
    ensures
        i <= skip_ws(bytes, i),
        i <= bytes.len() ==> skip_ws(bytes, i) <= bytes.len(),
        i > bytes.len() ==> skip_ws(bytes, i) == i,
        forall|k: int| i <= k < skip_ws(bytes, i) ==> is_ws(#[trigger] bytes[k]),
        skip_ws(bytes, i) < bytes.len() ==> !is_ws(bytes[skip_ws(bytes, i)]),
    decreases bytes.len() - i,
{
    if i < bytes.len() && is_ws(bytes[i]) {
        lemma_skip_ws(bytes, i + 1);
    }
}

pub proof fn lemma_template_stop(bytes: Seq<u8>, i: int)
    requires
        0 <= i <= bytes.len(),
    ensures
        i <= template_stop(bytes, i) <= bytes.len(),
        template_stop(bytes, i) < bytes.len() ==> (holds_byte(bytes, template_stop(bytes, i) + 1, DOLLAR)
            && holds_byte(bytes, template_stop(bytes, i) + 2, LBRACE)) || bytes[template_stop(bytes, i)]
            == BACKTICK,
    decreases bytes.len() - i,
{
    if i < bytes.len() && !(holds_byte(bytes, i + 1, DOLLAR) && holds_byte(bytes, i + 2, LBRACE)) && bytes[i]
        != BACKTICK {
        lemma_template_stop(bytes, i + 1);
    }
}

pub proof fn lemma_cursor_bounds(bytes: Seq<u8>, v: nat)
    ensures
        cursor(bytes, v).0 <= v,
        cursor(bytes, v).1 <= v,
    decreases v,
{
    if v > 0 {
        lemma_cursor_bounds(bytes, (v - 1) as nat);
    }
}

/// The character that starts at a boundary before the end fits in the text, and
/// its end is a boundary too.
pub proof fn lemma_char_width(bytes: Seq<u8>, p: int)
    requires
        valid_utf8(bytes),
        0 <= p < bytes.len(),
        is_char_boundary(bytes, p),
    ensures
        1 <= char_width(bytes, p),
        p + char_width(bytes, p) <= bytes.len(),
        is_char_boundary(bytes, p + char_width(bytes, p)),
        bytes[p] < 0x80 ==> char_width(bytes, p) == 1,
        bytes[p] >= 0x80 ==> 0xc0 <= bytes[p] <= 0xf7,
        0xc0 <= bytes[p] <= 0xdf ==> char_width(bytes, p) == 2,
        0xe0 <= bytes[p] <= 0xef ==> char_width(bytes, p) == 3,
        0xf0 <= bytes[p] <= 0xf7 ==> char_width(bytes, p) == 4,
{
    is_char_boundary_start_end_of_seq(bytes);
    valid_utf8_split(bytes, p);
    let suffix = bytes.subrange(p, bytes.len() as int);
    assert(suffix[0] == bytes[p]);
    assert(valid_first_scalar(suffix) && valid_utf8(pop_first_scalar(suffix)));
    let w = char_width(bytes, p);
    let rest = pop_first_scalar(suffix);
    assert(rest =~= bytes.subrange(p + w, bytes.len() as int));
    if p + w < bytes.len() {
        is_char_boundary_iff_not_is_continuation_byte(rest, 0);
        assert(rest[0] == bytes[p + w]);
        is_char_boundary_iff_not_is_continuation_byte(bytes, p + w);
    }
    is_char_boundary_iff_not_is_continuation_byte(bytes, p);
}

/// The facts about one step of lexing that the lexer's code relies on: the text
/// is cut at character boundaries, and lexing moves forward to a boundary.
pub proof fn lemma_step_at(bytes: Seq<u8>, p: int, depth: u8)
    requires
        valid_utf8(bytes),
        0 <= p < bytes.len(),
        is_char_boundary(bytes, p),
        !is_ws(bytes[p]),
    ensures
        ({
            let st = step_at(bytes, p, depth);
            &&& 0 <= st.lo <= st.hi <= bytes.len()
            &&& is_char_boundary(bytes, st.lo)
            &&& is_char_boundary(bytes, st.hi)
            &&& p < st.next <= bytes.len() + 1
            &&& st.next <= bytes.len() ==> is_char_boundary(bytes, st.next)
            &&& (st.start == p || st.start == p + 1)
            &&& st.start <= bytes.len()
            &&& st.kind != TokenKind::End
        }),
{
    let len = bytes.len() as int;
    let c = bytes[p];
    is_char_boundary_start_end_of_seq(bytes);
    lemma_char_width(bytes, p);
    if c < 0x80 {
        lemma_boundary_after_ascii(bytes, p);
    }
    if p + 1 < len && bytes[p + 1] < 0x80 {
        lemma_boundary_after_ascii(bytes, p + 1);
    }
    if c == QUOTE && !holds_byte(bytes, p + 1, QUOTE) {
        let e = scan(bytes, p + 1, ByteClass::NotQuoteOrNewline);
        lemma_scan(bytes, p + 1, ByteClass::NotQuoteOrNewline);
        if e < len {
            lemma_boundary_at_ascii(bytes, e);
            lemma_boundary_after_ascii(bytes, e);
        }
    } else if c == BACKTICK || (c == RBRACE && depth > 0) {
        let q = p + 1;
        lemma_template_stop(bytes, q);
        let r = template_stop(bytes, q);
        if r < len {
            if holds_byte(bytes, r + 1, DOLLAR) && holds_byte(bytes, r + 2, LBRACE) {
                lemma_boundary_at_ascii(bytes, r + 1);
            } else {
                lemma_boundary_after_ascii(bytes, r);
            }
        }
    } else if (c == SLASH && holds_byte(bytes, p + 1, SLASH)) || (c == HASH && holds_byte(bytes, p + 1, BANG)) {
        let e = scan(bytes, p + 1, ByteClass::NotNewline);
        lemma_scan(bytes, p + 1, ByteClass::NotNewline);
        if e < len {
            lemma_boundary_at_ascii(bytes, e);
        }
    } else if c == SLASH {
        let e = scan(bytes, p + 1, ByteClass::NotWhitespace);
        lemma_scan(bytes, p + 1, ByteClass::NotWhitespace);
        if e < len {
            lemma_boundary_at_ascii(bytes, e);
        }
    } else if is_alpha(c) {
        let e = scan(bytes, p + 1, ByteClass::IdentChar);
        lemma_scan(bytes, p + 1, ByteClass::IdentChar);
        assert(bytes[e - 1] < 0x80);
        lemma_boundary_after_ascii(bytes, e - 1);
        let e2 = scan(bytes, e, ByteClass::NotWhitespace);
        lemma_scan(bytes, e, ByteClass::NotWhitespace);
        if e2 < len {
            lemma_boundary_at_ascii(bytes, e2);
        }
    } else if is_digit(c) {
        let e = scan(bytes, p + 1, ByteClass::Digit);
        lemma_scan(bytes, p + 1, ByteClass::Digit);
        assert(bytes[e - 1] < 0x80);
        lemma_boundary_after_ascii(bytes, e - 1);
        if holds_byte(bytes, e, DOT) {
            lemma_boundary_after_ascii(bytes, e);
            if e + 1 < len && is_digit(bytes[e + 1]) {
                let e2 = scan(bytes, e + 2, ByteClass::Digit);
                lemma_scan(bytes, e + 2, ByteClass::Digit);
                assert(bytes[e2 - 1] < 0x80);
                lemma_boundary_after_ascii(bytes, e2 - 1);
            }
        }
    }
}

} // verus!

verus! {

impl<'t> Token<'t> {
    /// The line and column right after the token's text.
    pub fn end_location(&self) -> (r: Location)
        requires
            self.start.col + self.text.spec_bytes().len() <= usize::MAX,
        ensures
            r == (Location { line: self.start.line, col: (self.start.col + self.text.spec_bytes().len()) as usize }),
    {
        Location { line: self.start.line, col: self.start.col + self.text.len() }
    }

    /// The position right after the token's text.
    pub fn end_position(&self) -> (r: Position)
        requires
            self.start.col + self.text.spec_bytes().len() <= usize::MAX,
            self.start.value + self.text.spec_bytes().len() <= usize::MAX,
        ensures
            r == spec_end_position(*self),
    {
        Position {
            line: self.start.line,
            value: self.start.value + self.text.len(),
            col: self.start.col + self.text.len(),
        }
    }
}

/// The position right after a token's text, on the line where it starts.
pub open spec fn spec_end_position(t: Token) -> Position {
    Position {
        line: t.start.line,
        value: (t.start.value + t.text.spec_bytes().len()) as usize,
        col: (t.start.col + t.text.spec_bytes().len()) as usize,
    }
}

/// The position of the last byte of a token's text (its start when the text is empty).
pub open spec fn spec_last_position(t: Token) -> Position {
    if t.text.spec_bytes().len() == 0 {
        t.start
    } else {
        Position {
            line: t.start.line,
            value: (t.start.value + t.text.spec_bytes().len() - 1) as usize,
            col: (t.start.col + t.text.spec_bytes().len() - 1) as usize,
        }
    }
}

impl<'t> GetSpan for Token<'t> {
    /// From the first to the last byte of the token's text.
    open spec fn spec_span(&self) -> Span {
        Span { start: self.start, end: spec_last_position(*self) }
    }

    open spec fn span_fits(&self) -> bool {
        &&& self.start.col + self.text.spec_bytes().len() <= usize::MAX
        &&& self.start.value + self.text.spec_bytes().len() <= usize::MAX
    }

    fn span(&self) -> (r: Span) {
        let n = self.text.len();
        if n == 0 {
            return Span { start: self.start, end: self.start };
        }
        Span {
            start: self.start,
            end: Position {
                line: self.start.line,
                value: self.start.value + n - 1,
                col: self.start.col + n - 1,
            },
        }
    }
}

impl<'t> crate::locations::GetSpan for Token<'t> {
    /// From the start of the token to the column right after its text.
    open spec fn spec_span(&self) -> crate::locations::Span {
        crate::locations::Span {
            start: Location { line: self.start.line, col: self.start.col },
            end: Location {
                line: self.start.line,
                col: (self.start.col + self.text.spec_bytes().len()) as usize,
            },
        }
    }

    open spec fn span_fits(&self) -> bool {
        self.start.col + self.text.spec_bytes().len() <= usize::MAX
    }

    fn span(&self) -> (r: crate::locations::Span) {
        crate::locations::Span {
            start: Location { line: self.start.line, col: self.start.col },
            end: self.end_location(),
        }
    }
}

/// Reads tokens off a source text one at a time.
#[derive(Debug)]
pub struct Lexer<'i> {
    input: &'i str,
    bytes: &'i [u8],
    position: Position,
    template_str_depth: u8,
}

impl<'i> Lexer<'i> {
    /// The bytes of the source text.
    pub closed spec fn source(&self) -> Seq<u8> {
        self.bytes@
    }

    /// The source text.
    pub closed spec fn source_str(&self) -> &'i str {
        self.input
    }

    /// The byte offset where the next token is looked for.
    pub closed spec fn offset(&self) -> int {
        self.position.value as int
    }

    /// How deep template strings are nested at the offset.
    pub closed spec fn depth(&self) -> u8 {
        self.template_str_depth
    }

    closed spec fn inner(&self) -> bool {
        &&& self.bytes@ == self.input.spec_bytes()
        &&& valid_utf8(self.bytes@)
        &&& self.bytes@.len() + 4 <= usize::MAX
        &&& self.position.value <= self.bytes@.len() + 1
        &&& at_cursor(self.bytes@, self.position)
    }

    /// The lexer is between two tokens.
    pub closed spec fn wf(&self) -> bool {
        &&& self.inner()
        &&& self.position.value <= self.bytes@.len() ==> is_char_boundary(
            self.bytes@,
            self.position.value as int,
        )
    }

    /// The lexer stands on the first byte of a token.
    closed spec fn ready(&self) -> bool {
        &&& self.inner()
        &&& self.position.value < self.bytes@.len()
        &&& is_char_boundary(self.bytes@, self.position.value as int)
        &&& !is_ws(self.bytes@[self.position.value as int])
    }

    /// `new` read `tok` as the next token after `old`, standing on its last byte.
    closed spec fn token_read(old: Lexer<'i>, new: Lexer<'i>, tok: Token<'i>) -> bool {
        let st = step_at(old.bytes@, old.position.value as int, old.template_str_depth);
        &&& new.inner()
        &&& new.bytes == old.bytes
        &&& new.input == old.input
        &&& token_is(tok, old.bytes@, st)
        &&& new.position.value + 1 == st.next
        &&& new.template_str_depth == st.depth
    }

    pub fn new(input: &'i str) -> (r: Lexer<'i>)
        requires
            input.spec_bytes().len() + 4 <= usize::MAX,
        ensures
            r.wf(),
            r.source() == input.spec_bytes(),
            r.source_str() == input,
            r.offset() == 0,
            r.depth() == 0,
    {
        proof {
            lemma_str_ends(input);
        }
        Self {
            input,
            bytes: input.as_bytes(),
            position: Position { value: 0, line: 0, col: 0 },
            template_str_depth: 0,
        }
    }

    /// The source text.
    pub fn input(&self) -> (r: &'i str)
        ensures
            r == self.source_str(),
    {
        self.input
    }

    fn slice(&self, lo: usize, hi: usize) -> (r: &'i str)
        requires
            self.inner(),
            lo <= hi <= self.bytes@.len(),
            is_char_boundary(self.bytes@, lo as int),
            is_char_boundary(self.bytes@, hi as int),
        ensures
            r.spec_bytes() == self.bytes@.subrange(lo as int, hi as int),
    {
        substr(self.input, lo, hi)
    }

    fn char_at(&self, position: usize) -> (r: Option<u8>)
        ensures
            r == (if position < self.bytes@.len() {
                Some(self.bytes@[position as int])
            } else {
                None
            }),
    {
        if position < self.bytes.len() {
            return Some(self.bytes[position]);
        }
        None
    }

    fn ch(&self) -> (r: Option<u8>)
        ensures
            r == (if self.position.value < self.bytes@.len() {
                Some(self.bytes@[self.position.value as int])
            } else {
                None
            }),
    {
        self.char_at(self.position.value)
    }

    /// Whether the byte `n + 1` places ahead is `b`.
    fn peek_is(&self, n: usize, b: u8) -> (r: bool)
        requires
            self.inner(),
            n <= 1,
        ensures
            r == holds_byte(self.bytes@, self.position.value + 1 + n, b),
    {
        match self.char_at(self.position.value + 1 + n) {
            Some(c) => c == b,
            None => false,
        }
    }

    fn check_and_bump_new_line(&mut self)
        requires
            old(self).inner(),
            old(self).position.value + 1 < old(self).bytes@.len(),
        ensures
            final(self).bytes == old(self).bytes,
            final(self).input == old(self).input,
            final(self).template_str_depth == old(self).template_str_depth,
            final(self).position.value == old(self).position.value,
            final(self).position.line == (if old(self).bytes@[old(self).position.value as int] == NL {
                old(self).position.line + 1
            } else {
                old(self).position.line as int
            }),
            final(self).position.col == (if old(self).bytes@[old(self).position.value as int] == NL {
                0
            } else {
                old(self).position.col + 1
            }),
    {
        proof {
            lemma_cursor_bounds(self.bytes@, self.position.value as nat);
        }
        if self.bytes[self.position.value] == NL {
            self.position.line = self.position.line + 1;
            self.position.col = 0;
        } else {
            self.position.col = self.position.col + 1;
        }
    }

    fn step(&mut self)
        requires
            old(self).inner(),
            old(self).position.value <= old(self).bytes@.len(),
        ensures
            final(self).inner(),
            final(self).bytes == old(self).bytes,
            final(self).input == old(self).input,
            final(self).template_str_depth == old(self).template_str_depth,
            final(self).position.value == old(self).position.value + 1,
    {
        if self.position.value + 1 < self.bytes.len() {
            self.check_and_bump_new_line();
        }
        self.position.value = self.position.value + 1;
    }

    /// Steps over the bytes of class `class` that follow the current one; gives
    /// the offset of the current byte and the offset after the run.
    fn read_while(&mut self, class: ByteClass) -> (r: (usize, usize))
        requires
            old(self).inner(),
            old(self).position.value < old(self).bytes@.len(),
        ensures
            final(self).inner(),
            final(self).bytes == old(self).bytes,
            final(self).input == old(self).input,
            final(self).template_str_depth == old(self).template_str_depth,
            r.0 == old(self).position.value,
            r.1 == scan(final(self).bytes@, old(self).position.value + 1, class),
            final(self).position.value + 1 == r.1,
    {
        let start_pos = self.position.value;
        proof {
            lemma_scan(self.bytes@, start_pos + 1, class);
        }
        while self.position.value + 1 < self.bytes.len() && passes(
            class,
            self.bytes[self.position.value + 1],
        )
            invariant
                self.inner(),
                self.bytes == old(self).bytes,
                self.input == old(self).input,
                self.template_str_depth == old(self).template_str_depth,
                start_pos <= self.position.value < self.bytes@.len(),
                scan(self.bytes@, self.position.value + 1, class) == scan(
                    self.bytes@,
                    start_pos + 1,
                    class,
                ),
            decreases self.bytes@.len() - self.position.value,
        {
            self.step();
        }
        (start_pos, self.position.value + 1)
    }

    fn skip_whitespace(&mut self)
        requires
            old(self).wf(),
        ensures
            final(self).wf(),
            final(self).bytes == old(self).bytes,
            final(self).input == old(self).input,
            final(self).template_str_depth == old(self).template_str_depth,
            final(self).position.value == skip_ws(final(self).bytes@, old(self).position.value as int),
    {
        proof {
            lemma_skip_ws(self.bytes@, self.position.value as int);
            lemma_str_ends(self.input);
        }
        while self.position.value < self.bytes.len() && is_ascii_ws(self.bytes[self.position.value])
            invariant
                self.wf(),
                self.bytes == old(self).bytes,
                self.input == old(self).input,
                self.template_str_depth == old(self).template_str_depth,
                valid_utf8(self.bytes@),
                skip_ws(self.bytes@, self.position.value as int) == skip_ws(
                    self.bytes@,
                    old(self).position.value as int,
                ),
            decreases self.bytes@.len() + 1 - self.position.value,
        {
            proof {
                lemma_boundary_after_ascii(self.bytes@, self.position.value as int);
            }
            self.step();
        }
    }

    fn token_here(&self, kind: TokenKind, width: usize) -> (tok: Token<'i>)
        requires
            self.inner(),
            1 <= width <= 2,
            self.position.value + width <= self.bytes@.len(),
            is_char_boundary(self.bytes@, self.position.value as int),
            is_char_boundary(self.bytes@, self.position.value + width),
        ensures
            tok.kind == kind,
            tok.start == self.position,
            tok.text.spec_bytes() == self.bytes@.subrange(
                self.position.value as int,
                self.position.value + width,
            ),
    {
        Token {
            kind,
            text: self.slice(self.position.value, self.position.value + width),
            start: self.position,
        }
    }

    /// The next token, or an `End` token when the text is used up.
    pub fn next_token(&mut self) -> (tok: Token<'i>)
        requires
            old(self).wf(),
        ensures
            final(self).wf(),
            final(self).source() == old(self).source(),
            final(self).source_str() == old(self).source_str(),
            ({
                let st = next_step(old(self).source(), old(self).offset(), old(self).depth());
                &&& token_is(tok, old(self).source(), st)
                &&& final(self).offset() == st.next
                &&& final(self).depth() == st.depth
            }),
            tok.start.value <= final(self).source().len() + 1,
            tok.start.col <= tok.start.value,
            tok.start.line <= tok.start.value,
            tok.text.spec_bytes().len() <= final(self).source().len(),
    {
        let ghost v0 = self.position.value as int;
        self.skip_whitespace();
        proof {
            lemma_skip_ws(self.bytes@, v0);
            lemma_str_ends(self.input);
            lemma_cursor_bounds(self.bytes@, self.position.value as nat);
        }
        let c = match self.ch() {
            Some(c) => c,
            None => {
                return Token { kind: TokenKind::End, start: self.position, text: self.slice(0, 0) };
            },
        };
        let ghost p = self.position.value as int;
        proof {
            lemma_step_at(self.bytes@, p, self.template_str_depth);
            if p + 1 < self.bytes@.len() && self.bytes@[p + 1] < 0x80 {
                lemma_boundary_after_ascii(self.bytes@, p + 1);
            }
            if c < 0x80 {
                lemma_boundary_after_ascii(self.bytes@, p);
            }
        }
        let t = if c == QUOTE && self.peek_is(0, QUOTE) {
            self.empty_string_literal()
        } else if c == QUOTE {
            self.string_literal()
        } else if c == BACKTICK {
            self.multiline_string_literal()
        } else if c == DOLLAR && self.peek_is(0, LBRACE) {
            let token = self.token_here(TokenKind::DollarSignLBracket, 2);
            self.step();
            token
        } else if c == RBRACE && self.template_str_depth > 0 {
            self.multiline_string_literal()
        } else if c == LPAREN {
            self.token_here(TokenKind::LParen, 1)
        } else if c == RPAREN {
            self.token_here(TokenKind::RParen, 1)
        } else if c == LBRACE {
            self.token_here(TokenKind::LBracket, 1)
        } else if c == RBRACE {
            self.token_here(TokenKind::RBracket, 1)
        } else if c == LSQUARE {
            self.token_here(TokenKind::LSquare, 1)
        } else if c == RSQUARE {
            self.token_here(TokenKind::RSquare, 1)
        } else if c == COMMA {
            self.token_here(TokenKind::Comma, 1)
        } else if c == COLON {
            self.token_here(TokenKind::Colon, 1)
        } else if c == EQUALS {
            self.token_here(TokenKind::Assign, 1)
        } else if c == AT {
            self.token_here(TokenKind::AttributePrefix, 1)
        } else if c == SLASH && self.peek_is(0, SLASH) {
            self.read_to_line_end(TokenKind::Linecomment)
        } else if c == SLASH {
            self.pathname()
        } else if c == HASH && self.peek_is(0, BANG) {
            self.read_to_line_end(TokenKind::Shebang)
        } else if is_ascii_alpha(c) {
            self.keyword_or_identifier()
        } else if is_ascii_digit(c) {
            self.number()
        } else {
            self.illegal()
        };
        self.step();
        t
    }

    fn empty_string_literal(&mut self) -> (tok: Token<'i>)
        requires
            old(self).ready(),
            old(self).bytes@[old(self).position.value as int] == QUOTE
                || old(self).bytes@[old(self).position.value as int] == BACKTICK,
            holds_byte(old(self).bytes@, old(self).position.value + 1, old(self).bytes@[old(self).position.value as int]),
        ensures
            Self::token_read(*old(self), *final(self), tok),
    {
        proof {
            lemma_str_ends(self.input);
        }
        let location = self.position;
        let text = self.slice(self.position.value, self.position.value);
        self.step();
        Token { kind: TokenKind::StringLiteral, start: location, text }
    }

    fn string_literal(&mut self) -> (tok: Token<'i>)
        requires
            old(self).ready(),
            old(self).bytes@[old(self).position.value as int] == QUOTE,
            !holds_byte(old(self).bytes@, old(self).position.value + 1, QUOTE),
        ensures
            Self::token_read(*old(self), *final(self), tok),
    {
        let ghost p = self.position.value as int;
        proof {
            lemma_step_at(self.bytes@, p, self.template_str_depth);
            lemma_scan(self.bytes@, p + 1, ByteClass::NotQuoteOrNewline);
        }
        let location = self.position;
        let (s, e) = self.read_while(ByteClass::NotQuoteOrNewline);
        match self.char_at(e) {
            None => {
                return Token {
                    kind: TokenKind::UnfinishedStringLiteral,
                    start: location,
                    text: self.slice(0, e),
                };
            },
            Some(b) => {
                if b == NL {
                    return Token {
                        kind: TokenKind::UnfinishedStringLiteral,
                        start: location,
                        text: self.slice(0, e),
                    };
                }
            },
        }
        let string = self.slice(s, e + 1);
        self.step();
        Token { kind: TokenKind::StringLiteral, start: location, text: string }
    }

    fn read_to_line_end(&mut self, kind: TokenKind) -> (tok: Token<'i>)
        requires
            old(self).ready(),
            (kind == TokenKind::Linecomment && old(self).bytes@[old(self).position.value as int]
                == SLASH && holds_byte(old(self).bytes@, old(self).position.value + 1, SLASH)) || (kind
                == TokenKind::Shebang && old(self).bytes@[old(self).position.value as int] == HASH
                && holds_byte(old(self).bytes@, old(self).position.value + 1, BANG)),
        ensures
            Self::token_read(*old(self), *final(self), tok),
    {
        proof {
            lemma_step_at(self.bytes@, self.position.value as int, self.template_str_depth);
        }
        let location = self.position;
        let (s, e) = self.read_while(ByteClass::NotNewline);
        Token { kind, text: self.slice(s, e), start: location }
    }

    fn pathname(&mut self) -> (tok: Token<'i>)
        requires
            old(self).ready(),
            old(self).bytes@[old(self).position.value as int] == SLASH,
            !holds_byte(old(self).bytes@, old(self).position.value + 1, SLASH),
        ensures
            Self::token_read(*old(self), *final(self), tok),
    {
        proof {
            lemma_step_at(self.bytes@, self.position.value as int, self.template_str_depth);
        }
        let location = self.position;
        let (s, e) = self.read_while(ByteClass::NotWhitespace);
        Token { kind: TokenKind::Pathname, text: self.slice(s, e), start: location }
    }

    fn word_kind_of(&self, s: usize, e: usize) -> (r: TokenKind)
        requires
            s <= e <= self.bytes@.len(),
        ensures
            r == word_kind(self.bytes@.subrange(s as int, e as int)),
    {
        let b = self.bytes;
        if range_eq(b, s, e, [108u8, 101u8, 116u8].as_slice()) {
            TokenKind::Let
        } else if range_eq(b, s, e, [103u8, 101u8, 116u8].as_slice()) {
            TokenKind::Get
        } else if range_eq(b, s, e, [112u8, 111u8, 115u8, 116u8].as_slice()) {
            TokenKind::Post
        } else if range_eq(b, s, e, [112u8, 117u8, 116u8].as_slice()) {
            TokenKind::Put
        } else if range_eq(b, s, e, [112u8, 97u8, 116u8, 99u8, 104u8].as_slice()) {
            TokenKind::Patch
        } else if range_eq(b, s, e, [100u8, 101u8, 108u8, 101u8, 116u8, 101u8].as_slice()) {
            TokenKind::Delete
        } else if range_eq(b, s, e, [104u8, 101u8, 97u8, 100u8, 101u8, 114u8].as_slice()) {
            TokenKind::Header
        } else if range_eq(b, s, e, [115u8, 101u8, 116u8].as_slice()) {
            TokenKind::SetKeyword
        } else if range_eq(b, s, e, [98u8, 111u8, 100u8, 121u8].as_slice()) {
            TokenKind::Body
        } else if range_eq(b, s, e, [102u8, 97u8, 108u8, 115u8, 101u8].as_slice()) || range_eq(
            b,
            s,
            e,
            [116u8, 114u8, 117u8, 101u8].as_slice(),
        ) {
            TokenKind::Boolean
        } else if range_eq(b, s, e, [110u8, 117u8, 108u8, 108u8].as_slice()) {
            TokenKind::Null
        } else {
            TokenKind::Ident
        }
    }

    fn keyword_or_identifier(&mut self) -> (tok: Token<'i>)
        requires
            old(self).ready(),
            is_alpha(old(self).bytes@[old(self).position.value as int]),
        ensures
            Self::token_read(*old(self), *final(self), tok),
    {
        proof {
            lemma_step_at(self.bytes@, self.position.value as int, self.template_str_depth);
            lemma_scan(self.bytes@, self.position.value + 1, ByteClass::IdentChar);
        }
        let location = self.position;
        let (s, e) = self.read_while(ByteClass::IdentChar);
        let b = self.bytes;
        if range_eq(b, s, e, [104u8, 116u8, 116u8, 112u8].as_slice()) || range_eq(
            b,
            s,
            e,
            [104u8, 116u8, 116u8, 112u8, 115u8].as_slice(),
        ) {
            let (_, e2) = self.read_while(ByteClass::NotWhitespace);
            return Token { kind: TokenKind::Url, start: location, text: self.slice(s, e2) };
        }
        let kind = self.word_kind_of(s, e);
        Token { kind, start: location, text: self.slice(s, e) }
    }

    fn number(&mut self) -> (tok: Token<'i>)
        requires
            old(self).ready(),
            is_digit(old(self).bytes@[old(self).position.value as int]),
        ensures
            Self::token_read(*old(self), *final(self), tok),
    {
        proof {
            lemma_step_at(self.bytes@, self.position.value as int, self.template_str_depth);
            lemma_scan(self.bytes@, self.position.value + 1, ByteClass::Digit);
        }
        let location = self.position;
        let (s, e) = self.read_while(ByteClass::Digit);
        if self.peek_is(0, DOT) {
            self.step();
            let is_digit_next = match self.char_at(e + 1) {
                Some(d) => is_ascii_digit(d),
                None => false,
            };
            if is_digit_next {
                self.step();
                let (_, e2) = self.read_while(ByteClass::Digit);
                return Token { kind: TokenKind::Number, start: location, text: self.slice(s, e2) };
            }
        }
        Token { kind: TokenKind::Number, start: location, text: self.slice(s, e) }
    }

    fn illegal(&mut self) -> (tok: Token<'i>)
        requires
            old(self).ready(),
            ({
                let c = old(self).bytes@[old(self).position.value as int];
                &&& c != QUOTE && c != BACKTICK && c != DOLLAR || (c == DOLLAR && !holds_byte(
                    old(self).bytes@,
                    old(self).position.value + 1,
                    LBRACE,
                ))
                &&& c != LPAREN && c != RPAREN && c != LBRACE && c != RBRACE && c != LSQUARE
                &&& c != RSQUARE && c != COMMA && c != COLON && c != EQUALS && c != AT && c != SLASH
                &&& c != HASH || (c == HASH && !holds_byte(old(self).bytes@, old(self).position.value + 1, BANG))
                &&& !is_alpha(c) && !is_digit(c)
            }),
        ensures
            Self::token_read(*old(self), *final(self), tok),
    {
        let ghost p = self.position.value as int;
        proof {
            lemma_str_ends(self.input);
            lemma_step_at(self.bytes@, p, self.template_str_depth);
            lemma_char_width(self.bytes@, p);
        }
        let c = self.bytes[self.position.value];
        let width: usize = if c < 0x80 {
            1
        } else if c < 0xe0 {
            2
        } else if c < 0xf0 {
            3
        } else {
            4
        };
        let location = self.position;
        let text = self.slice(self.position.value, self.position.value + width);
        let mut i: usize = 1;
        while i < width
            invariant
                self.inner(),
                self.bytes == old(self).bytes,
                self.input == old(self).input,
                self.template_str_depth == old(self).template_str_depth,
                1 <= i <= width,
                p + width <= self.bytes@.len(),
                self.position.value == p + i - 1,
            decreases width - i,
        {
            self.step();
            i = i + 1;
        }
        Token { kind: TokenKind::IllegalToken, start: location, text }
    }

    fn multiline_string_literal(&mut self) -> (tok: Token<'i>)
        requires
            old(self).ready(),
            old(self).bytes@[old(self).position.value as int] == BACKTICK || (old(self).bytes@[old(
                self,
            ).position.value as int] == RBRACE && old(self).template_str_depth > 0),
        ensures
            Self::token_read(*old(self), *final(self), tok),
    {
        let ghost p = self.position.value as int;
        proof {
            lemma_str_ends(self.input);
            lemma_step_at(self.bytes@, p, self.template_str_depth);
            lemma_template_stop(self.bytes@, p + 1);
            lemma_boundary_after_ascii(self.bytes@, p);
        }
        let c = self.bytes[self.position.value];
        if c == BACKTICK {
            if self.peek_is(0, BACKTICK) {
                return self.empty_string_literal();
            }
            if self.peek_is(0, DOLLAR) && self.peek_is(1, LBRACE) {
                self.template_str_depth = if self.template_str_depth == 255 {
                    0
                } else {
                    self.template_str_depth + 1
                };
                return self.token_here(TokenKind::MultiLineStringLiteral { head: true, tail: false }, 1);
            }
            self.template_str_depth = if self.template_str_depth == 255 {
                0
            } else {
                self.template_str_depth + 1
            };
            let start = self.position;
            self.step();
            self.template_body(start, true)
        } else {
            if self.peek_is(0, BACKTICK) {
                self.step();
                proof {
                    lemma_boundary_after_ascii(self.bytes@, p + 1);
                }
                self.template_str_depth = self.template_str_depth - 1;
                return self.token_here(TokenKind::MultiLineStringLiteral { head: false, tail: true }, 1);
            }
            if self.peek_is(0, DOLLAR) && self.peek_is(1, LBRACE) {
                let here = self.position;
                self.step();
                let start = self.position;
                self.position = here;
                let v = here.value;
                return Token {
                    kind: TokenKind::MultiLineStringLiteral { head: false, tail: false },
                    start,
                    text: self.slice(v + 1, v + 1),
                };
            }
            self.step();
            let start = self.position;
            self.template_body(start, false)
        }
    }

    /// Reads a piece of template string whose text starts at `start`.
    fn template_body(&mut self, start: Position, head: bool) -> (tok: Token<'i>)
        requires
            old(self).inner(),
            old(self).position.value <= old(self).bytes@.len(),
            start.value <= old(self).position.value,
            at_cursor(old(self).bytes@, start),
            is_char_boundary(old(self).bytes@, start.value as int),
        ensures
            ({
                let st = template_body(
                    old(self).bytes@,
                    start.value as int,
                    old(self).position.value as int,
                    head,
                    old(self).template_str_depth,
                );
                &&& final(self).inner()
                &&& final(self).bytes == old(self).bytes
                &&& final(self).input == old(self).input
                &&& token_is(tok, old(self).bytes@, st)
                &&& final(self).position.value + 1 == st.next
                &&& final(self).template_str_depth == st.depth
            }),
    {
        let ghost q = self.position.value as int;
        proof {
            lemma_str_ends(self.input);
            lemma_template_stop(self.bytes@, q);
        }
        loop
            invariant
                self.inner(),
                self.bytes == old(self).bytes,
                self.input == old(self).input,
                self.template_str_depth == old(self).template_str_depth,
                q == old(self).position.value,
                q <= self.position.value <= template_stop(self.bytes@, q),
                template_stop(self.bytes@, self.position.value as int) == template_stop(
                    self.bytes@,
                    q,
                ),
                start.value <= q,
                at_cursor(self.bytes@, start),
                is_char_boundary(self.bytes@, start.value as int),
                valid_utf8(self.bytes@),
                is_char_boundary(self.bytes@, self.bytes@.len() as int),
                q <= self.bytes@.len(),
                template_stop(self.bytes@, q) <= self.bytes@.len(),
            decreases self.bytes@.len() + 1 - self.position.value,
        {
            let v = self.position.value;
            if self.peek_is(0, DOLLAR) && self.peek_is(1, LBRACE) {
                proof {
                    lemma_boundary_at_ascii(self.bytes@, v + 1);
                    assert(template_stop(self.bytes@, v as int) == v);
                }
                let text = self.slice(start.value, v + 1);
                return Token {
                    kind: TokenKind::MultiLineStringLiteral { head, tail: false },
                    start,
                    text,
                };
            }
            match self.ch() {
                None => {
                    return Token {
                        kind: TokenKind::UnfinishedMultiLineStringLiteral,
                        start,
                        text: self.slice(start.value, v),
                    };
                },
                Some(b) => {
                    if b == BACKTICK {
                        proof {
                            lemma_boundary_after_ascii(self.bytes@, v as int);
                            assert(template_stop(self.bytes@, v as int) == v);
                        }
                        self.template_str_depth = if self.template_str_depth == 0 {
                            255
                        } else {
                            self.template_str_depth - 1
                        };
                        let text = self.slice(start.value, v + 1);
                        return Token {
                            kind: TokenKind::MultiLineStringLiteral { head, tail: true },
                            start,
                            text,
                        };
                    }
                },
            }
            proof {
                lemma_template_stop(self.bytes@, v + 1);
            }
            self.step();
        }
    }
}

} // verus!

verus! {

impl<'i> Lexer<'i> {
    /// The next token, or `None` once the text is used up.
    pub fn next(&mut self) -> (r: Option<Token<'i>>)
        requires
            old(self).wf(),
        ensures
            final(self).wf(),
            final(self).source() == old(self).source(),
            final(self).source_str() == old(self).source_str(),
            ({
                let st = next_step(old(self).source(), old(self).offset(), old(self).depth());
                &&& final(self).offset() == st.next
                &&& final(self).depth() == st.depth
                &&& match r {
                    None => st.kind == TokenKind::End,
                    Some(tok) => st.kind != TokenKind::End && token_is(tok, old(self).source(), st),
                }
            }),
    {
        let token = self.next_token();
        if let TokenKind::End = token.kind {
            return None;
        }
        Some(token)
    }

    /// All the tokens that are left, in order, without the end token.
    pub fn into_tokens(self) -> (r: Vec<Token<'i>>)
        requires
            self.wf(),
        ensures
            r@.len() == tokens_from(self.source(), self.offset(), self.depth()).len(),
            forall|i: int|
                0 <= i < r@.len() ==> token_is(
                    #[trigger] r@[i],
                    self.source(),
                    tokens_from(self.source(), self.offset(), self.depth())[i],
                ),
    {
        let ghost bytes = self.source();
        let ghost total = tokens_from(bytes, self.offset(), self.depth());
        let mut lexer = self;
        let mut tokens: Vec<Token<'i>> = Vec::new();
        loop
            invariant
                lexer.wf(),
                lexer.source() == bytes,
                0 <= lexer.offset() <= bytes.len() + 1,
                tokens@.len() + tokens_from(bytes, lexer.offset(), lexer.depth()).len()
                    == total.len(),
                forall|i: int|
                    0 <= i < tokens@.len() ==> token_is(#[trigger] tokens@[i], bytes, total[i]),
                forall|j: int|
                    0 <= j < tokens_from(bytes, lexer.offset(), lexer.depth()).len() ==> total[tokens@.len() + j]
                        == tokens_from(bytes, lexer.offset(), lexer.depth())[j],
            ensures
                tokens@.len() == total.len(),
                forall|i: int|
                    0 <= i < tokens@.len() ==> token_is(#[trigger] tokens@[i], bytes, total[i]),
            decreases bytes.len() + 2 - lexer.offset(),
        {
            let ghost v = lexer.offset();
            let ghost d = lexer.depth();
            let ghost rest = tokens_from(bytes, v, d);
            proof {
                lemma_step_progress(bytes, v, d);
            }
            let token = lexer.next_token();
            if let TokenKind::End = token.kind {
                assert(rest.len() == 0);
                break;
            }
            let ghost n = tokens@.len() as int;
            proof {
                let st = next_step(bytes, v, d);
                let after = tokens_from(bytes, st.next, st.depth);
                assert(rest =~= seq![st] + after);
                assert(rest[0] == st);
                assert(total[n + 0] == rest[0]);
                assert forall|j: int| 0 <= j < after.len() implies total[n + 1 + j] == after[j] by {
                    assert(total[n + (j + 1)] == rest[j + 1]);
                    assert(rest[j + 1] == after[j]);
                }
            }
            let ghost before = tokens@;
            tokens.push(token);
            proof {
                assert forall|i: int| 0 <= i < tokens@.len() implies token_is(#[trigger] tokens@[i], bytes, total[i]) by {
                    if i < n {
                        assert(tokens@[i] == before[i]);
                    }
                }
            }
        }
        tokens
    }
}

/// A call of the lexer that gives a token other than the end token moves
/// forward, and stays within the text and one byte past it.
pub proof fn lemma_step_progress(bytes: Seq<u8>, v: int, depth: u8)
    requires
        valid_utf8(bytes),
        0 <= v <= bytes.len() + 1,
        v <= bytes.len() ==> is_char_boundary(bytes, v),
    ensures
        next_step(bytes, v, depth).kind != TokenKind::End ==> v < next_step(bytes, v, depth).next
            <= bytes.len() + 1,
{
    lemma_skip_ws(bytes, v);
    let p = skip_ws(bytes, v);
    if p < bytes.len() {
        lemma_boundaries_after_whitespace(bytes, v);
        lemma_step_at(bytes, p, depth);
    }
}

/// Skipping whitespace from a boundary lands on a boundary.
pub proof fn lemma_boundaries_after_whitespace(bytes: Seq<u8>, v: int)
    requires
        valid_utf8(bytes),
        0 <= v <= bytes.len(),
        is_char_boundary(bytes, v),
    ensures
        is_char_boundary(bytes, skip_ws(bytes, v)),
    decreases bytes.len() - v,
{
    if v < bytes.len() && is_ws(bytes[v]) {
        lemma_boundary_after_ascii(bytes, v);
        lemma_boundaries_after_whitespace(bytes, v + 1);
    }
}

/// Once the lexer has given the end token it keeps giving it: the end token
/// leaves the offset and the nesting depth as they were.
pub proof fn end_token_is_final(bytes: Seq<u8>, v: int, depth: u8)
    requires
        0 <= v,
        next_step(bytes, v, depth).kind == TokenKind::End,
    ensures
        next_step(bytes, next_step(bytes, v, depth).next, depth) == next_step(bytes, v, depth),
{
    lemma_skip_ws(bytes, v);
    let p = skip_ws(bytes, v);
    lemma_skip_ws(bytes, p);
}

/// The text of every token but an unterminated string literal and the end token is
/// the source text that starts at the token's position; lexing goes on right
/// after that text, or after a dropped dot that follows a number.
pub proof fn token_text_is_the_source_at_its_start(bytes: Seq<u8>, v: int, depth: u8)
    requires
        valid_utf8(bytes),
        0 <= v <= bytes.len() + 1,
        v <= bytes.len() ==> is_char_boundary(bytes, v),
    ensures
        ({
            let st = next_step(bytes, v, depth);
            st.kind != TokenKind::End && st.kind != TokenKind::UnfinishedStringLiteral ==> {
                &&& st.lo == st.start
                &&& st.start <= st.hi <= st.next
                &&& bytes.subrange(st.lo, st.hi).len() == st.hi - st.start
            }
        }),
{
    lemma_skip_ws(bytes, v);
    let p = skip_ws(bytes, v);
    if p < bytes.len() {
        lemma_boundaries_after_whitespace(bytes, v);
        lemma_step_at(bytes, p, depth);
    }
}

/// Tokens come in order: the token after one with text starts later than it,
/// and the token after an empty one (the empty text between two adjacent
/// interpolations of a template) starts no earlier. An unterminated string
/// literal, whose text is taken from the start of the source, is left out.
pub proof fn tokens_start_in_order(bytes: Seq<u8>, v: int, depth: u8)
    requires
        valid_utf8(bytes),
        0 <= v <= bytes.len() + 1,
        v <= bytes.len() ==> is_char_boundary(bytes, v),
    ensures
        ({
            let st = next_step(bytes, v, depth);
            let after = next_step(bytes, st.next, st.depth);
            st.kind != TokenKind::End && st.kind != TokenKind::UnfinishedStringLiteral ==> {
                &&& st.start <= after.start
                &&& st.lo < st.hi ==> st.start < after.start
            }
        }),
{
    token_text_is_the_source_at_its_start(bytes, v, depth);
    lemma_skip_ws(bytes, v);
    let p = skip_ws(bytes, v);
    if p < bytes.len() {
        lemma_boundaries_after_whitespace(bytes, v);
        lemma_step_at(bytes, p, depth);
        let st = step_at(bytes, p, depth);
        lemma_skip_ws(bytes, st.next);
        let q = skip_ws(bytes, st.next);
        if q < bytes.len() {
            if st.next <= bytes.len() {
                lemma_boundaries_after_whitespace(bytes, st.next);
            }
            lemma_step_at(bytes, q, st.depth);
        }
    }
}

/// The text `word` followed by a colon stands at `p` of `bytes`.
pub open spec fn word_then_colon_at(bytes: Seq<u8>, p: int, word: Seq<u8>) -> bool {
    &&& 0 <= p
    &&& p + word.len() < bytes.len()
    &&& bytes.subrange(p, p + word.len()) == word
    &&& bytes[p + word.len()] == COLON
}

/// `hi` is the first offset from `p` on that holds whitespace, or the end.
pub open spec fn runs_to_whitespace(bytes: Seq<u8>, p: int, hi: int) -> bool {
    &&& p <= hi <= bytes.len()
    &&& forall|k: int| p <= k < hi ==> !is_ws(#[trigger] bytes[k])
    &&& (hi == bytes.len() || is_ws(bytes[hi]))
}

/// A url: where `http:` or `https:` begins a token, the token is a url that
/// holds all the text up to the next whitespace.
pub proof fn a_url_runs_to_the_next_whitespace(bytes: Seq<u8>, p: int, depth: u8)
    requires
        word_then_colon_at(bytes, p, seq![104u8, 116u8, 116u8, 112u8]) || word_then_colon_at(
            bytes,
            p,
            seq![104u8, 116u8, 116u8, 112u8, 115u8],
        ),
    ensures
        step_at(bytes, p, depth).kind == TokenKind::Url,
        step_at(bytes, p, depth).lo == p,
        step_at(bytes, p, depth).start == p,
        step_at(bytes, p, depth).next == step_at(bytes, p, depth).hi,
        runs_to_whitespace(bytes, p, step_at(bytes, p, depth).hi),
{
    let n: int = if word_then_colon_at(bytes, p, seq![104u8, 116u8, 116u8, 112u8]) { 4 } else { 5 };
    assert(bytes[p] == 104u8) by {
        assert(bytes.subrange(p, p + n)[0] == bytes[p]);
    }
    assert forall|k: int| p + 1 <= k < p + n implies in_class(ByteClass::IdentChar, #[trigger] bytes[k]) by {
        assert(bytes.subrange(p, p + n)[k - p] == bytes[k]);
    }
    lemma_scan(bytes, p + 1, ByteClass::IdentChar);
    let e = scan(bytes, p + 1, ByteClass::IdentChar);
    if e < p + n {
        assert(in_class(ByteClass::IdentChar, bytes[e]));
    }
    if e > p + n {
        assert(in_class(ByteClass::IdentChar, bytes[p + n]));
    }
    assert(e == p + n);
    if n == 4 {
        assert(bytes.subrange(p, e) =~= kw_http());
    } else {
        assert(bytes.subrange(p, e) =~= kw_https());
    }
    lemma_scan(bytes, e, ByteClass::NotWhitespace);
    let e2 = scan(bytes, e, ByteClass::NotWhitespace);
    assert forall|k: int| p <= k < e2 implies !is_ws(#[trigger] bytes[k]) by {
        if k < e {
            assert(in_class(ByteClass::IdentChar, bytes[k]));
        } else {
            assert(in_class(ByteClass::NotWhitespace, bytes[k]));
        }
    }
}

} // verus!

verus! {

/// How a token kind is named in messages.
pub open spec fn kind_name(k: TokenKind) -> Seq<char> {
    match k {
        TokenKind::Get => "get"@,
        TokenKind::Post => "post"@,
        TokenKind::Put => "put"@,
        TokenKind::Patch => "patch"@,
        TokenKind::Delete => "delete"@,
        TokenKind::Header => "header"@,
        TokenKind::Body => "body"@,
        TokenKind::SetKeyword => "set"@,
        TokenKind::Let => "let"@,
        TokenKind::Ident => "identifier"@,
        TokenKind::Boolean => "boolean"@,
        TokenKind::Number => "number"@,
        TokenKind::StringLiteral => "string"@,
        TokenKind::MultiLineStringLiteral { .. } => "string"@,
        TokenKind::Pathname => "pathname"@,
        TokenKind::Url => "url"@,
        TokenKind::Linecomment => "comment"@,
        TokenKind::Shebang => "#!..."@,
        TokenKind::Assign => "="@,
        TokenKind::DollarSignLBracket => "${"@,
        TokenKind::LParen => "("@,
        TokenKind::RParen => ")"@,
        TokenKind::LBracket => "{"@,
        TokenKind::RBracket => "}"@,
        TokenKind::LSquare => "["@,
        TokenKind::RSquare => "]"@,
        TokenKind::Colon => ":"@,
        TokenKind::AttributePrefix => "@"@,
        TokenKind::Comma => ","@,
        TokenKind::End => "Eof"@,
        TokenKind::UnfinishedStringLiteral => "\"..."@,
        TokenKind::UnfinishedMultiLineStringLiteral => "`..."@,
        TokenKind::IllegalToken => "illegal"@,
        TokenKind::Null => "null"@,
    }
}

impl TokenKind {
    /// How this kind of token is named in messages.
    pub fn name(&self) -> (r: &'static str)
        ensures
            r@ == kind_name(*self),
    {
        match self {
            TokenKind::Get => "get",
            TokenKind::Post => "post",
            TokenKind::Put => "put",
            TokenKind::Patch => "patch",
            TokenKind::Delete => "delete",
            TokenKind::Header => "header",
            TokenKind::Body => "body",
            TokenKind::SetKeyword => "set",
            TokenKind::Let => "let",
            TokenKind::Ident => "identifier",
            TokenKind::Boolean => "boolean",
            TokenKind::Number => "number",
            TokenKind::StringLiteral => "string",
            TokenKind::MultiLineStringLiteral { .. } => "string",
            TokenKind::Pathname => "pathname",
            TokenKind::Url => "url",
            TokenKind::Linecomment => "comment",
            TokenKind::Shebang => "#!...",
            TokenKind::Assign => "=",
            TokenKind::DollarSignLBracket => "${",
            TokenKind::LParen => "(",
            TokenKind::RParen => ")",
            TokenKind::LBracket => "{",
            TokenKind::RBracket => "}",
            TokenKind::LSquare => "[",
            TokenKind::RSquare => "]",
            TokenKind::Colon => ":",
            TokenKind::AttributePrefix => "@",
            TokenKind::Comma => ",",
            TokenKind::End => "Eof",
            TokenKind::UnfinishedStringLiteral => "\"...",
            TokenKind::UnfinishedMultiLineStringLiteral => "`...",
            TokenKind::IllegalToken => "illegal",
            TokenKind::Null => "null",
        }
    }
}

} // verus!

verus! {

impl<'i> Lexer<'i> {
    /// What a lexer between two tokens guarantees about its text and offset.
    pub proof fn lemma_wf(&self)
        requires
            self.wf(),
        ensures
            valid_utf8(self.source()),
            self.source() == self.source_str().spec_bytes(),
            0 <= self.offset() <= self.source().len() + 1,
            self.offset() <= self.source().len() ==> is_char_boundary(self.source(), self.offset()),
            self.source().len() + 4 <= usize::MAX,
    {
    }
}

/// A call of the lexer that gives a token other than the end token leaves one
/// token fewer to read.
pub proof fn lemma_tokens_from_step(bytes: Seq<u8>, v: int, depth: u8)
    requires
        valid_utf8(bytes),
        0 <= v <= bytes.len() + 1,
        v <= bytes.len() ==> is_char_boundary(bytes, v),
    ensures
        next_step(bytes, v, depth).kind != TokenKind::End ==> tokens_from(bytes, v, depth).len()
            == tokens_from(bytes, next_step(bytes, v, depth).next, next_step(bytes, v, depth).depth).len() + 1,
        next_step(bytes, v, depth).kind == TokenKind::End ==> tokens_from(bytes, v, depth).len() == 0,
        next_step(bytes, v, depth).kind != TokenKind::End ==> skip_ws(bytes, v) < bytes.len(),
{
    lemma_step_progress(bytes, v, depth);
}

} // verus!
