//! A JSON reader: a lexical scanner that turns text into a token sequence,
//! and a recursive-descent parser that turns the token sequence into a value
//! tree.  Both stages are specified against mathematical models of the data
//! (`Lexeme` for tokens, `Node` for values) and abort on the first error,
//! reported as a closed enumeration of error kinds.

pub mod token;
pub mod value;
pub mod tokenizer;
pub mod parser;

pub use parser::Parser;
pub use token::JsonError;
pub use token::Token;
pub use tokenizer::tokenize;
pub use value::JsonValue;
