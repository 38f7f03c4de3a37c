//! The error taxonomy of the compiler.
//!
//! Every error is fatal and immediate: the first one encountered aborts the
//! whole compilation and no partial output is ever handed back.

use vstd::prelude::*;

verus! {

/// One error of the compiler. Lexical errors come from reading characters,
/// syntax errors from delimiter pairing and from token shapes, and semantic
/// errors from the symbol table.
#[derive(Debug, Clone, Copy, PartialEq, Eq, Structural)]
pub enum CompileError {
    /// A character that no lexer rule accepts.
    UnrecognizedCharacter(char),
    /// The input ended directly after `=`, which needs a following character.
    UnexpectedEndAfterAssignment,
    /// A run of digits does not fit in `usize`.
    LiteralTooLarge,
    /// A `}` with no pending `{` to pair with.
    UnpairedBlockEnd,
    /// A `)` with no pending `(` to pair with.
    UnpairedExprEnd,
    /// A `{` that is never closed.
    UnclosedBlock,
    /// A `(` that is never closed.
    UnclosedExpr,
    /// `var` was not followed by an identifier.
    ExpectedIdentifierAfterLet,
    /// A declaration reuses a name that is still live.
    Redefinition,
    /// The identifier of a declaration was not followed by `=`.
    ExpectedAssignment,
    /// The `=` of a declaration was followed by neither a literal nor an
    /// identifier.
    ExpectedValueAfterAssignment,
    /// The source of a declaration names a variable that is not live.
    UndefinedVariable,
    /// `free` was not followed by an identifier or a literal.
    FreedNonIdentifier,
    /// `free` was applied to a literal.
    FreedLiteral,
    /// `free` names a variable that is not live.
    FreedUndefined,
    /// A conditional was not followed by `(`.
    ExpectedExprStart,
    /// The left operand of a condition was not a literal.
    ExpectedLeftLiteral,
    /// The operator of a condition was not `==`.
    ExpectedEquality,
    /// The right operand of a condition was not a literal.
    ExpectedRightLiteral,
    /// The condition of a conditional was not followed by `{`.
    NoBlockAfterConditional,
    /// A token that no statement can start with.
    UnrecognizedToken,
}

/// The three classes of the error taxonomy.
#[derive(Debug, Clone, Copy, PartialEq, Eq, Structural)]
pub enum ErrorKind {
    Lex,
    Syntax,
    Semantic,
}

/// The class an error belongs to.
pub open spec fn spec_kind(e: CompileError) -> ErrorKind {
    match e {
        CompileError::UnrecognizedCharacter(_) => ErrorKind::Lex,
        CompileError::UnexpectedEndAfterAssignment => ErrorKind::Lex,
        CompileError::LiteralTooLarge => ErrorKind::Lex,
        CompileError::Redefinition => ErrorKind::Semantic,
        CompileError::UndefinedVariable => ErrorKind::Semantic,
        CompileError::FreedNonIdentifier => ErrorKind::Semantic,
        CompileError::FreedLiteral => ErrorKind::Semantic,
        CompileError::FreedUndefined => ErrorKind::Semantic,
        _ => ErrorKind::Syntax,
    }
}

impl CompileError {
    /// Which class of the taxonomy this error belongs to.
    pub fn kind(&self) -> (k: ErrorKind)
        ensures
            k == spec_kind(*self),
    {
        match self {
            CompileError::UnrecognizedCharacter(_) => ErrorKind::Lex,
            CompileError::UnexpectedEndAfterAssignment => ErrorKind::Lex,
            CompileError::LiteralTooLarge => ErrorKind::Lex,
            CompileError::Redefinition => ErrorKind::Semantic,
            CompileError::UndefinedVariable => ErrorKind::Semantic,
            CompileError::FreedNonIdentifier => ErrorKind::Semantic,
            CompileError::FreedLiteral => ErrorKind::Semantic,
            CompileError::FreedUndefined => ErrorKind::Semantic,
            _ => ErrorKind::Syntax,
        }
    }
}

} // verus!
