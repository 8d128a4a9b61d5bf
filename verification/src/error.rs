use vstd::prelude::*;
use crate::lexer::LexerError;
use crate::parser::ParserError;

verus! {

/// A line/column location in the input text (both counted from 1).
#[derive(Debug, Clone, Copy, PartialEq, Eq, Structural)]
pub struct Position {
    pub line: usize,
    pub column: usize,
}

impl Default for Position {
    /// The position reported when no token is at hand: line 0, column 0.
    fn default() -> (p: Position)
        ensures
            p == Position::origin(),
    {
        Position { line: 0, column: 0 }
    }
}

impl Position {
    pub open spec fn origin() -> Position {
        Position { line: 0, column: 0 }
    }
}

/// An error met while reading JSON text.
#[derive(Debug, Clone, Copy, PartialEq, Eq, Structural)]
pub enum JsonError {
    Lexer(LexerError),
    Parser(ParserError),
}

} // verus!
