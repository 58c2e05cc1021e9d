//! Failure values of the translator and of the engine.

use vstd::prelude::*;

verus! {

/// What went wrong while translating source text.
#[derive(Debug, Clone, Copy, PartialEq, Eq, Structural)]
pub enum CompileErrorKind {
    /// A character that is neither one of the eight symbols nor a newline.
    UnclosedCharacter,
    /// A `[` that is still open when the text ends.
    UnclosedLeftBracket,
    /// A `]` with no open `[` before it.
    UnexpectedRightBracket,
}

/// A translation failure with the place of the offending character.
#[derive(Debug, Clone, Copy, PartialEq, Eq, Structural)]
pub struct CompileError {
    pub line: usize,
    pub col: usize,
    pub kind: CompileErrorKind,
}

/// A failure of the engine itself while it executes a program.
#[derive(Debug, Clone, Copy, PartialEq, Eq, Structural)]
pub enum RuntimeError {
    /// The data pointer would have left the tape.
    Overflow,
}

} // verus!
