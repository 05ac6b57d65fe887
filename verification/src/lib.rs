//! A parser for a practical subset of JSON.
//!
//! A document is scanned byte by byte into a sequence of tokens, and the
//! tokens are consumed by a recursive-descent parser with two-token
//! lookahead into a tree of values. The top level of a document must be an
//! object or an array. Failures are explicit error values carrying byte
//! offsets or the offending tokens; parsing stops at the first error.
//!
//! Numeric literals follow the grammar `-? digit+ (. digit+)?` (no
//! exponents) and are kept as their literal bytes: the tree stores the
//! exact decimal spelling, and a caller chooses its own numeric type when
//! reading it. String tokens and values keep their escape sequences
//! unresolved, exactly as they stand between the quotes in the source.

pub mod json;
pub mod laws;
pub mod lexer;
pub mod parser;
pub mod token;

pub use json::{Array, Object, Root, Value};
pub use lexer::Lexer;
pub use parser::{parse, Error, Parser};
pub use token::Token;
