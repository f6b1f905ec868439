//! The failures of lexing, parsing and evaluation.

use vstd::prelude::*;

verus! {

/// The class of a failure.
#[derive(Clone, Copy, Debug, PartialEq, Eq, Structural)]
pub enum ErrorKind {
    Lexical,
    Syntax,
    Declaration,
    Name,
    Type,
    Arithmetic,
}

/// A failure. The first one ends the run: nothing is retried or skipped.
#[derive(Clone, Copy, Debug, PartialEq, Eq, Structural)]
pub enum Error {
    /// A `{` at `position` has no closing `}`.
    UnterminatedComment { position: usize },
    /// The character at `position` starts no token.
    UnrecognizedCharacter { character: char, position: usize },
    /// A numeral holds a second decimal point, at `position`.
    MultipleDecimalPoints { position: usize },
    /// The integer numeral that starts at `position` exceeds 64 bits.
    NumeralOutOfRange { position: usize },
    /// The real numeral that starts at `position` could not be read.
    MalformedNumeral { position: usize },
    /// The next token is not one that the grammar allows here.
    UnexpectedToken,
    /// Tokens follow the final `.` of the program.
    TrailingInput,
    /// A name is declared a second time.
    DuplicateDeclaration,
    /// A name is used that no declaration introduces.
    UndeclaredVariable,
    /// A variable is read before any assignment to it.
    UninitializedVariable,
    /// A value is assigned to a variable declared with the other type.
    TypeMismatch,
    /// An integer is divided by zero.
    DivisionByZero,
    /// An integer result does not fit in 64 bits.
    Overflow,
}

impl Error {
    /// The class that a failure belongs to.
    pub open spec fn spec_kind(&self) -> ErrorKind {
        match *self {
            Error::UnterminatedComment { .. } => ErrorKind::Lexical,
            Error::UnrecognizedCharacter { .. } => ErrorKind::Lexical,
            Error::MultipleDecimalPoints { .. } => ErrorKind::Lexical,
            Error::NumeralOutOfRange { .. } => ErrorKind::Lexical,
            Error::MalformedNumeral { .. } => ErrorKind::Lexical,
            Error::UnexpectedToken => ErrorKind::Syntax,
            Error::TrailingInput => ErrorKind::Syntax,
            Error::DuplicateDeclaration => ErrorKind::Declaration,
            Error::UndeclaredVariable => ErrorKind::Name,
            Error::UninitializedVariable => ErrorKind::Name,
            Error::TypeMismatch => ErrorKind::Type,
            Error::DivisionByZero => ErrorKind::Arithmetic,
            Error::Overflow => ErrorKind::Arithmetic,
        }
    }

    /// The class that a failure belongs to.
    #[verifier::when_used_as_spec(spec_kind)]
    pub fn kind(&self) -> (r: ErrorKind)
        ensures
            r == self.spec_kind(),
    {
        match *self {
            Error::UnterminatedComment { .. } => ErrorKind::Lexical,
            Error::UnrecognizedCharacter { .. } => ErrorKind::Lexical,
            Error::MultipleDecimalPoints { .. } => ErrorKind::Lexical,
            Error::NumeralOutOfRange { .. } => ErrorKind::Lexical,
            Error::MalformedNumeral { .. } => ErrorKind::Lexical,
            Error::UnexpectedToken => ErrorKind::Syntax,
            Error::TrailingInput => ErrorKind::Syntax,
            Error::DuplicateDeclaration => ErrorKind::Declaration,
            Error::UndeclaredVariable => ErrorKind::Name,
            Error::UninitializedVariable => ErrorKind::Name,
            Error::TypeMismatch => ErrorKind::Type,
            Error::DivisionByZero => ErrorKind::Arithmetic,
            Error::Overflow => ErrorKind::Arithmetic,
        }
    }
}

} // verus!
