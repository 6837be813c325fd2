//! Where an editor's cursor stands relative to a span of source text.
use vstd::prelude::*;

use crate::lexer::locations::Span;

verus! {

/// A cursor in an editor: a zero-based line and a zero-based character on it.
#[derive(Debug, PartialEq, Eq, Clone, Copy, Structural)]
pub struct EditorPosition {
    pub line: u32,
    pub character: u32,
}

/// Relations between something that occupies source text and a cursor.
pub trait ContainsPosition {
    /// The cursor stands inside.
    spec fn covers(&self, position: EditorPosition) -> bool;

    /// What occupies the text starts after the cursor.
    spec fn lies_after(&self, position: EditorPosition) -> bool;

    fn contains(&self, position: &EditorPosition) -> (r: bool)
        ensures
            r == self.covers(*position),
    ;

    fn is_after(&self, position: &EditorPosition) -> (r: bool)
        ensures
            r == self.lies_after(*position),
    ;

    fn is_on_or_after(&self, position: &EditorPosition) -> (r: bool)
        ensures
            r == (self.lies_after(*position) || self.covers(*position)),
    ;
}

impl ContainsPosition for Span {
    /// On a span of one line, the cursor's line and a column between both ends;
    /// otherwise any line of the span.
    open spec fn covers(&self, position: EditorPosition) -> bool {
        if self.start.line == self.end.line && self.start.line == position.line {
            self.start.col <= position.character <= self.end.col
        } else {
            self.start.line <= position.line <= self.end.line
        }
    }

    /// The span starts on a later line, or on the cursor's line at a later column.
    open spec fn lies_after(&self, position: EditorPosition) -> bool {
        self.start.line > position.line || (self.start.line == position.line
            && self.start.col > position.character)
    }

    fn contains(&self, position: &EditorPosition) -> (r: bool) {
        let line = position.line as usize;
        let character = position.character as usize;
        if self.start.line == self.end.line && self.start.line == line {
            return self.start.col <= character && character <= self.end.col;
        }
        self.start.line <= line && line <= self.end.line
    }

    fn is_after(&self, position: &EditorPosition) -> (r: bool) {
        let line = position.line as usize;
        if self.start.line < line {
            return false;
        }
        if self.start.line == line {
            return self.start.col > position.character as usize;
        }
        true
    }

    fn is_on_or_after(&self, position: &EditorPosition) -> (r: bool) {
        self.is_after(position) || self.contains(position)
    }
}

} // verus!
