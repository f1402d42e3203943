use std::ops::Range;
use vstd::prelude::*;

verus! {

/// An error raised while compiling: its category and, where one applies,
/// the byte range of the source it refers to.
#[derive(Debug, PartialEq)]
pub struct CompileError {
    pub error_type: CompileErrorType,
    pub pos: Option<Range<usize>>,
}

/// The stage that failed, with the stage's own reason.
#[derive(PartialEq, Debug)]
pub enum CompileErrorType {
    Tokenizing(TokenizeError),
    Parsing(ParseError),
    Codegen(CodegenError),
}

/// A run of source text that forms no token.
#[derive(PartialEq, Debug)]
pub struct TokenizeError(pub String);

/// Why the token stream is not a program.
#[derive(PartialEq, Eq, Debug, Clone, Copy)]
pub enum ParseError {
    /// An operand position holds neither a number, a variable nor `(`.
    NotNumber,
    /// The input ended where an operand was expected.
    TrailingOp,
    /// A number follows an operand with no operator between them.
    CannotParse,
    /// A `(` is not closed by `)`.
    NotFoundRoundBracketR,
    /// A statement is not ended by `;`.
    NeedSemiColon,
    /// A statement was asked for where no token is left.
    Empty,
}

/// Why a tree cannot be lowered to instructions.
#[derive(PartialEq, Eq, Debug, Clone, Copy)]
pub enum CodegenError {
    /// The left side of an assignment is not a variable.
    LValueNotVar,
    /// An assignment has no right side.
    RValueNotFound,
}

} // verus!
