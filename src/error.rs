//! The errors of decoding, and their model.
use vstd::prelude::*;

verus! {

/// What went wrong while decoding.
#[derive(Clone, Copy, Debug, PartialEq, Eq, Structural)]
pub enum ErrorKind {
    /// Nothing was left to decode after trimming.
    EmptyInput,
    /// A string literal had no closing quote.
    UnterminatedString,
    /// An array literal had no closing bracket.
    UnterminatedArray,
    /// Text that starts with a digit is not a number that fits.
    MalformedInteger,
    /// The text after the `f` marker is not floating-point text.
    MalformedFloat,
    /// The first character starts no literal.
    UnrecognizedLiteral,
    /// The line holds no whitespace to end its number.
    MissingLineNumber,
    /// The text before the first whitespace is not a line number.
    InvalidLineNumber,
    /// An assignment whose target is not an identifier.
    MalformedAssignment,
    /// A method call without a name, without a final closing parenthesis, with
    /// another parenthesis outside quotes among its arguments, or bound to
    /// something other than an identifier.
    MalformedMethodCall,
    /// A statement of none of the known shapes.
    UnrecognizedStatement,
}

/// A decoding failure: its kind, the text that failed (the trimmed fragment
/// at fault, or the line's number text), and the line's number where known.
#[derive(Clone, Debug, PartialEq, Eq)]
pub struct ParseError {
    pub kind: ErrorKind,
    pub text: String,
    pub line: Option<usize>,
}

pub struct ErrorModel {
    pub kind: ErrorKind,
    pub text: Seq<char>,
    pub line: Option<nat>,
}

impl View for ParseError {
    type V = ErrorModel;

    open spec fn view(&self) -> ErrorModel {
        ErrorModel {
            kind: self.kind,
            text: self.text@,
            line: match self.line {
                Some(n) => Some(n as nat),
                None => None,
            },
        }
    }
}

/// A failure of `kind` on `text`, not yet tied to a line.
pub open spec fn failure(kind: ErrorKind, text: Seq<char>) -> ErrorModel {
    ErrorModel { kind, text, line: None }
}

/// Builds the failure of `kind` on `text`.
pub fn fail(kind: ErrorKind, text: &str) -> (e: ParseError)
    ensures
        e@ == failure(kind, text@),
{
    ParseError { kind, text: text.to_owned(), line: None }
}

} // verus!
