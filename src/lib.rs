//! Decoding of a small line-oriented script notation: typed literal values
//! (integers, floats, quoted strings, nested arrays) and numbered statement
//! lines (comments, assignments, method calls).
pub mod canonical;
pub mod error;
pub mod float;
pub mod line;
pub mod statement;
pub mod text;
pub mod value;

pub use error::{ErrorKind, ParseError};
pub use line::Line;
pub use statement::{Assignment, LineContent, MethodCall};
pub use value::TypeVar;
